use vstd::prelude::*;

use crate::position::{Column, Offset, Position, Row, sat_add_i32, saturating_add_i32, signum, signum_spec};
use crate::range::Range;
use crate::selection::{AllSelections, Selection, Selections};
use crate::state::lines::{
    join_lines, lemma_join_around_line, lemma_join_split, lemma_line_start_next, lemma_split_at_newline,
    lemma_split_no_newline, line_start, split_lines, text_offset, extend_ends, insert_lines,
    lemma_extend_ends_index, lemma_insert_lines, delete_lines, lemma_delete_lines,
};
use crate::state::edit_model::{
    undo_lines, undo_inverses, undo_allowed, redo_lines, redo_inverses, redo_allowed, edit_allowed, inverse_edit_in, lines_after_delete, lines_after_edit, selections_after_edit, can_delete_in, clamp_spec, deleted_span_in, insert_end_spec, inserted_range_spec, limit_position_in,
    limit_range_edge_in, range_text_in, rows_text_in, segment_text_in, selection_text_in,
};
use crate::state::text_buffer_history::TextBufferHistory;
use crate::config::applied_config::EditorConfig;
use crate::state::lines::{bytes_before_row, lemma_bytes_before_row_mono, no_line_feeds};
use crate::text::{
    byte_index_to_char_index, char_count, char_index_at_byte, char_index_to_byte_index, chars_of,
    lemma_utf8_len_nonneg, lemma_utf8_len_prefix, push_char, push_str, str_utf8_len, string_from_range,
    utf8_len,
};

verus! {

/// A text buffer: lines of text, the selections of the views that show it,
/// and its edit history.
///
/// #1. There is always at least one line.
/// #2. Line terminators are not part of the lines: they are implied between
///     consecutive lines.
/// #3. Positions refer to lines by row and to the characters of the line by
///     column.
/// #4. A position with column == the line's character count is allowed: it
///     is the position of the line terminator (also on the last line, which
///     has none).
/// #5. Line terminators are represented by a line feed '\n'.
pub struct TextBuffer {
    pub lines: Vec<String>,
    pub selections: AllSelections,
    pub path: Option<String>,
    pub dirty: bool,
    pub history: TextBufferHistory,
    /// Version of the buffer's content, incremented by every change, undos included.
    pub content_version: i32,
    /// File format the user set.
    pub forced_format: Option<String>,
}

/// An edit: the characters of `range` are replaced by `text`.
#[derive(Debug)]
pub struct TextEdit {
    pub range: Range,
    pub text: String,
}

impl Clone for TextEdit {
    fn clone(&self) -> (r: Self)
        ensures
            r.range == self.range,
            r.text@ == self.text@,
    {
        TextEdit { range: self.range, text: self.text.clone() }
    }
}

impl TextEdit {
    /// The edit as a range and a sequence of characters.
    pub open spec fn view_spec(self) -> (Range, Seq<char>) {
        (self.range, self.text@)
    }
}

/// The lines of a vector of strings.
pub open spec fn lines_of(v: Seq<String>) -> Seq<Seq<char>> {
    v.map_values(|l: String| l@)
}

impl TextBuffer {
    /// The lines of the buffer.
    pub open spec fn lines_view(self) -> Seq<Seq<char>> {
        lines_of(self.lines@)
    }

    /// The whole text of the buffer, lines joined by line feeds.
    pub open spec fn content(self) -> Seq<char> {
        join_lines(self.lines_view())
    }

    /// Invariants #1 and #2, and a text short enough for rows and columns to
    /// fit in an `i32`.
    pub open spec fn wf(self) -> bool {
        &&& self.lines@.len() >= 1
        &&& no_line_feeds(self.lines_view())
        &&& self.content().len() < i32::MAX
        &&& self.history.wf()
        &&& self.selections.wf()
    }

    /// Number of lines.
    pub open spec fn line_count_spec(self) -> int {
        self.lines@.len() as int
    }

    /// Character count of line `row`.
    pub open spec fn line_len(self, row: int) -> int {
        self.lines@[row]@.len() as int
    }

    /// The position limited to the buffer's content (see `limit_position_in`).
    pub open spec fn limit_position_spec(self, p: Position) -> Position {
        limit_position_in(self.lines_view(), p)
    }

    /// A range edge limited to the content (see `limit_range_edge_in`).
    pub open spec fn limit_range_edge_spec(self, p: Position) -> Position {
        limit_range_edge_in(self.lines_view(), p)
    }

    /// Index in the content of a position inside the content.
    pub open spec fn offset_of(self, p: Position) -> int {
        text_offset(self.lines_view(), p.row as int, p.column as int)
    }
}

/// Line lengths and counts are bounded by the length of the text.
pub proof fn lemma_lines_bounded(lines: Seq<Seq<char>>)
    requires
        lines.len() > 0,
    ensures
        join_lines(lines).len() >= lines.len() - 1,
        forall|r: int| 0 <= r < lines.len() ==> #[trigger] lines[r].len() <= join_lines(lines).len(),
        forall|r: int| 0 <= r < lines.len() ==> line_start(lines, r) >= r && line_start(lines, r) + lines[r].len() <= join_lines(lines).len(),
{
    assert forall|r: int| 0 <= r < lines.len() implies line_start(lines, r) >= r && line_start(lines, r)
        + lines[r].len() <= join_lines(lines).len() by {
        lemma_join_around_line(lines, r);
        lemma_line_start_at_least_row(lines, r);
    }
    assert forall|r: int| 0 <= r < lines.len() implies #[trigger] lines[r].len() <= join_lines(lines).len() by {
        lemma_join_around_line(lines, r);
    }
    lemma_join_around_line(lines, lines.len() - 1);
    lemma_line_start_at_least_row(lines, lines.len() - 1);
}

proof fn lemma_line_start_at_least_row(lines: Seq<Seq<char>>, r: int)
    requires
        0 <= r < lines.len(),
    ensures
        line_start(lines, r) >= r,
    decreases r,
{
    if r > 0 {
        lemma_line_start_at_least_row(lines, r - 1);
        lemma_line_start_next(lines, r - 1);
    }
}

impl TextBuffer {
    /// A buffer with a single empty line.
    pub fn new_empty() -> (r: Self)
        ensures
            r.wf(),
            r.lines_view() == seq![Seq::<char>::empty()],
            r.selections.view_spec() == Map::<u64, Seq<Selection>>::empty(),
            r.path.is_none(),
            !r.dirty,
            r.history.current_group_edge_idx == 0,
            r.history.edit_groups@.len() == 0,
            r.content_version == 0,
            r.forced_format.is_none(),
    {
        let mut lines = Vec::new();
        lines.push(String::new());
        let r = Self {
            lines,
            selections: AllSelections::new(),
            path: None,
            dirty: false,
            history: TextBufferHistory::new(),
            content_version: 0,
            forced_format: None,
        };
        proof {
            assert(r.lines_view() =~= seq![Seq::<char>::empty()]);
        }
        r
    }

    /// A buffer with the lines of `content` and the given path.
    pub fn new_with_content(content: &str, path: Option<String>) -> (r: Self)
        requires
            content@.len() < i32::MAX,
        ensures
            r.wf(),
            r.lines_view() == split_lines(content@),
            r.content() == content@,
            r.selections.view_spec() == Map::<u64, Seq<Selection>>::empty(),
            r.path == path,
            !r.dirty,
            r.history.current_group_edge_idx == 0,
            r.history.edit_groups@.len() == 0,
            r.content_version == 0,
    {
        let chars = chars_of(content);
        let lines = split_chars_into_lines(&chars);
        proof {
            lemma_join_split(content@);
        }
        Self {
            lines,
            selections: AllSelections::new(),
            path,
            dirty: false,
            history: TextBufferHistory::new(),
            content_version: 0,
            forced_format: None,
        }
    }

    /// The buffer's content, lines joined by line feeds.
    pub fn content_to_string(&self) -> (r: String)
        ensures
            r@ == self.content(),
        decreases self.lines@.len(),
    {
        let mut r = String::new();
        let mut i: usize = 0;
        while i < self.lines.len()
            invariant
                i <= self.lines@.len(),
                r@ == join_lines(self.lines_view().take(i as int)),
            decreases self.lines@.len() - i,
        {
            let ghost before = r@;
            if i != 0 {
                push_char(&mut r, '\n');
            }
            push_str(&mut r, self.lines[i].as_str());
            proof {
                let l = self.lines_view();
                let t = l.take(i + 1);
                if i == 0 {
                    assert(t =~= seq![l[0]]);
                } else {
                    assert(t.drop_last() =~= l.take(i as int));
                    assert(t.len() >= 2);
                }
                assert(r@ =~= join_lines(t));
            }
            i += 1;
        }
        proof {
            assert(self.lines_view().take(i as int) =~= self.lines_view());
        }
        r
    }

    pub fn is_dirty(&self) -> (r: bool)
        ensures
            r == self.dirty,
    {
        self.dirty
    }

    pub fn content_version(&self) -> (r: i32)
        ensures
            r == self.content_version,
    {
        self.content_version
    }

    /// Marks the content as changed and bumps its version (wrapping).
    fn mark_dirty(&mut self)
        ensures
            final(self).dirty,
            final(self).content_version == next_version(old(self).content_version),
            final(self).lines == old(self).lines,
            final(self).selections == old(self).selections,
            final(self).history == old(self).history,
            final(self).path == old(self).path,
            final(self).forced_format == old(self).forced_format,
    {
        self.dirty = true;
        self.content_version = if self.content_version == i32::MAX {
            i32::MIN
        } else {
            self.content_version + 1
        };
    }

    /// Marks the content as saved.
    pub fn mark_clean(&mut self)
        ensures
            !final(self).dirty,
            final(self).lines == old(self).lines,
            final(self).selections == old(self).selections,
            final(self).history == old(self).history,
            final(self).path == old(self).path,
            final(self).content_version == old(self).content_version,
            final(self).forced_format == old(self).forced_format,
    {
        self.dirty = false;
    }

    /// What writing the buffer to its file takes: its path and its content.
    /// Fails with "missing path" when the buffer has no path. The caller
    /// performs the write, then calls `mark_clean`.
    pub fn write(&self) -> (r: Result<(String, String), String>)
        ensures
            self.path.is_none() ==> r.is_err() && r->Err_0@ == "missing path"@,
            self.path.is_some() ==> r.is_ok() && r->Ok_0.0@ == self.path->Some_0@ && r->Ok_0.1@
                == self.content(),
    {
        match &self.path {
            None => {
                let r = String::from_str("missing path");
                Err(r)
            },
            Some(path) => Ok((path.clone(), self.content_to_string())),
        }
    }

    /// Sets the selections of `view`, with the same effect as `set_view_selections`.
    pub fn add_view_selections(&mut self, view: u64, selections: Selections)
        requires
            old(self).wf(),
        ensures
            final(self).wf(),
            final(self).selections.view_spec() == old(self).selections.view_spec().insert(view, selections.all_spec()),
            final(self).lines == old(self).lines,
            final(self).history == old(self).history,
            final(self).path == old(self).path,
            final(self).dirty == old(self).dirty,
            final(self).content_version == old(self).content_version,
    {
        self.selections.insert(view, selections);
    }

    /// The selections of `view`.
    pub fn view_selections(&self, view: u64) -> (r: Option<&Selections>)
        requires
            self.wf(),
        ensures
            r.is_some() == self.selections.view_spec().contains_key(view),
            r.is_some() ==> r->Some_0.all_spec() == self.selections.view_spec()[view],
    {
        self.selections.get(view)
    }

    /// The selections of `view`, to be changed in place.
    pub fn view_selections_mut(&mut self, view: u64) -> (r: Option<&mut Selections>)
        requires
            old(self).wf(),
        ensures
            r.is_some() == old(self).selections.has_view(view),
            r matches Some(s) ==> ({
                let i = old(self).selections.index_of_view(view);
                &&& *s == old(self).selections.entries@[i].1
                &&& final(self).selections.entries@ == old(self).selections.entries@.update(i, (view, *final(s)))
            }),
            r.is_none() ==> final(self).selections.entries@ == old(self).selections.entries@,
            final(self).lines == old(self).lines,
            final(self).history == old(self).history,
            final(self).path == old(self).path,
    {
        self.selections.get_mut(view)
    }

    /// Sets the selections of `view`, returning the previous ones.
    pub fn set_view_selections(&mut self, view: u64, selections: Selections) -> (r: Option<
        Selections,
    >)
        requires
            old(self).wf(),
        ensures
            final(self).wf(),
            final(self).selections.view_spec() == old(self).selections.view_spec().insert(view, selections.all_spec()),
            r.is_some() == old(self).selections.view_spec().contains_key(view),
            r.is_some() ==> r->Some_0.all_spec() == old(self).selections.view_spec()[view],
            final(self).lines == old(self).lines,
            final(self).history == old(self).history,
            final(self).path == old(self).path,
            final(self).dirty == old(self).dirty,
            final(self).content_version == old(self).content_version,
    {
        self.selections.insert(view, selections)
    }

    pub fn path(&self) -> (r: Option<&String>)
        ensures
            r == match self.path {
                Some(p) => Some(&p),
                None => None,
            },
    {
        match &self.path {
            Some(p) => Some(p),
            None => None,
        }
    }

    pub fn set_path(&mut self, path: Option<String>)
        ensures
            final(self).path == path,
            final(self).lines == old(self).lines,
            final(self).selections == old(self).selections,
            final(self).history == old(self).history,
            final(self).dirty == old(self).dirty,
            final(self).content_version == old(self).content_version,
    {
        self.path = path;
    }

    /// The path, or the empty string when there is none.
    pub fn path_str(&self) -> (r: &str)
        ensures
            r@ == match self.path {
                Some(p) => p@,
                None => Seq::<char>::empty(),
            },
    {
        match &self.path {
            Some(p) => p.as_str(),
            None => {
                proof {
                    reveal_strlit("");
                }
                ""
            },
        }
    }

    /// Line `row`, if there is one.
    pub fn line(&self, row: Row) -> (r: Option<&str>)
        ensures
            (0 <= row < self.lines@.len()) ==> r.is_some() && r->Some_0@ == self.lines@[row as int]@,
            !(0 <= row < self.lines@.len()) ==> r.is_none(),
    {
        if row < 0 {
            return None;
        }
        let idx = row as usize;
        if idx < self.lines.len() {
            Some(self.lines[idx].as_str())
        } else {
            None
        }
    }

    /// Replaces line `row`, returning its previous content. Fails when there is no such line.
    pub fn set_line(&mut self, row_index: Row, new_content: String) -> (r: Result<String, ()>)
        requires
            old(self).wf(),
            0 <= row_index < old(self).lines@.len() ==> join_lines(
                old(self).lines_view().update(row_index as int, new_content@),
            ).len() < i32::MAX,
            forall|i: int| 0 <= i < new_content@.len() ==> new_content@[i] != '\n',
        ensures
            final(self).wf(),
            (0 <= row_index < old(self).lines@.len()) ==> ({
                &&& r.is_ok()
                &&& r->Ok_0@ == old(self).lines@[row_index as int]@
                &&& final(self).lines_view() == old(self).lines_view().update(row_index as int, new_content@)
                &&& final(self).dirty
                &&& final(self).content_version == next_version(old(self).content_version)
            }),
            !(0 <= row_index < old(self).lines@.len()) ==> r.is_err() && *final(self) == *old(self),
            final(self).selections == old(self).selections,
            final(self).history == old(self).history,
            final(self).path == old(self).path,
    {
        if row_index < 0 || row_index as usize >= self.lines.len() {
            return Err(());
        }
        let idx = row_index as usize;
        let old_content = self.lines.remove(idx);
        self.lines.insert(idx, new_content);
        self.mark_dirty();
        proof {
            assert(self.lines_view() =~= old(self).lines_view().update(row_index as int, new_content@));
        }
        Ok(old_content)
    }

    /// The first line.
    pub fn first_line(&self) -> (r: &str)
        requires
            self.wf(),
        ensures
            r@ == self.lines@[0]@,
    {
        self.lines[0].as_str()
    }

    /// Number of lines.
    pub fn line_count(&self) -> (r: Row)
        requires
            self.wf(),
        ensures
            r == self.lines@.len(),
    {
        proof {
            lemma_lines_bounded(self.lines_view());
        }
        self.lines.len() as Row
    }

    /// Row of the last line.
    pub fn last_row(&self) -> (r: Row)
        requires
            self.wf(),
        ensures
            r == self.lines@.len() - 1,
    {
        self.line_count() - 1
    }

    /// Character count of line `row`, if there is one.
    pub fn line_char_count(&self, row: Row) -> (r: Option<Column>)
        requires
            self.wf(),
        ensures
            (0 <= row < self.lines@.len()) ==> r == Some(self.line_len(row as int) as Column),
            !(0 <= row < self.lines@.len()) ==> r.is_none(),
    {
        match self.line(row) {
            Some(line) => {
                proof {
                    lemma_lines_bounded(self.lines_view());
                    assert(self.lines_view()[row as int] == self.lines@[row as int]@);
                }
                Some(char_count(line) as Column)
            },
            None => None,
        }
    }

    /// The position of the end of the last line.
    pub fn end_position(&self) -> (r: Position)
        requires
            self.wf(),
        ensures
            r.row == self.lines@.len() - 1,
            r.column == self.line_len(self.lines@.len() - 1),
    {
        let row = self.last_row();
        let column = match self.line_char_count(row) {
            Some(c) => c,
            None => 0,
        };
        Position::new(column, row)
    }

    /// The position limited to the content (see `limit_position_spec`).
    pub fn limit_position_to_content(&self, position: Position) -> (r: Position)
        requires
            self.wf(),
        ensures
            r == self.limit_position_spec(position),
            0 <= r.row < self.lines@.len(),
            0 <= r.column <= self.line_len(r.row as int),
    {
        let row = clamp_i32(position.row, 0, self.last_row());
        let count = match self.line_char_count(row) {
            Some(c) => c,
            None => 0,
        };
        proof {
            lemma_lines_bounded(self.lines_view());
            assert(self.lines_view()[row as int] == self.lines@[row as int]@);
        }
        let column = clamp_i32(position.column, 0, count);
        Position::new(column, row)
    }

    /// The selection with its cursor and anchor limited to the content.
    pub fn limit_selection_to_content(&self, selection: &Selection) -> (r: Selection)
        requires
            self.wf(),
        ensures
            r.cursor == self.limit_position_spec(selection.cursor),
            r.anchor == self.limit_position_spec(selection.anchor),
    {
        let cursor = self.limit_position_to_content(selection.cursor);
        let anchor = self.limit_position_to_content(selection.anchor);
        selection.with_cursor(cursor).with_anchor(anchor)
    }

    fn limit_range_edge_to_content(&self, position: Position) -> (r: Position)
        requires
            self.wf(),
        ensures
            r == self.limit_range_edge_spec(position),
            0 <= r.row < self.lines@.len(),
            0 <= r.column <= self.line_len(r.row as int) + 1,
    {
        let row = clamp_i32(position.row, 0, self.last_row());
        let count = match self.line_char_count(row) {
            Some(c) => c,
            None => 0,
        };
        proof {
            lemma_lines_bounded(self.lines_view());
            assert(self.lines_view()[row as int] == self.lines@[row as int]@);
        }
        let column = clamp_i32(position.column, 0, count + 1);
        Position::new(column, row)
    }

    /// The range with both edges limited to the content; the column of an
    /// edge may be one past its line's terminator.
    pub fn limit_range_to_content(&self, range: Range) -> (r: Range)
        requires
            self.wf(),
        ensures
            r.start == self.limit_range_edge_spec(range.start),
            r.end == self.limit_range_edge_spec(range.end),
    {
        let start = self.limit_range_edge_to_content(range.start);
        let end = self.limit_range_edge_to_content(range.end);
        Range::from_positions(start, end)
    }
}

/// The next content version: one more, wrapping at the bounds of `i32`.
/// Whether an edit changes the text: it deletes characters, or inserts some.
pub open spec fn edit_changes(lines: Seq<Seq<char>>, range: Range, text: Seq<char>) -> bool {
    let d = deleted_span_in(lines, range);
    (range.start != range.end && d.start != d.end) || text.len() > 0
}

/// The content version after an edit: one step on for the deletion when it
/// removes characters, one for the insertion when it inserts some.
pub open spec fn version_after_edit(v: i32, lines: Seq<Seq<char>>, range: Range, text: Seq<char>) -> i32 {
    let d = deleted_span_in(lines, range);
    let v1 = if range.start != range.end && d.start != d.end {
        next_version(v)
    } else {
        v
    };
    if text.len() > 0 {
        next_version(v1)
    } else {
        v1
    }
}

/// The content version after applying `edits` from the last to the first,
/// as undo does (see `version_after_edit`).
pub open spec fn undo_version(v: i32, lines: Seq<Seq<char>>, edits: Seq<(Range, Seq<char>)>) -> i32
    decreases edits.len(),
{
    if edits.len() == 0 {
        v
    } else {
        undo_version(
            version_after_edit(v, lines, edits.last().0, edits.last().1),
            lines_after_edit(lines, edits.last().0, edits.last().1),
            edits.drop_last(),
        )
    }
}

/// Whether applying `edits` from the last to the first changes the text at
/// some step (see `edit_changes`).
pub open spec fn undo_changes(lines: Seq<Seq<char>>, edits: Seq<(Range, Seq<char>)>) -> bool
    decreases edits.len(),
{
    if edits.len() == 0 {
        false
    } else {
        edit_changes(lines, edits.last().0, edits.last().1) || undo_changes(
            lines_after_edit(lines, edits.last().0, edits.last().1),
            edits.drop_last(),
        )
    }
}

/// The content version after applying `edits` from the first to the last,
/// as redo does (see `version_after_edit`).
pub open spec fn redo_version(v: i32, lines: Seq<Seq<char>>, edits: Seq<(Range, Seq<char>)>) -> i32
    decreases edits.len(),
{
    if edits.len() == 0 {
        v
    } else {
        redo_version(
            version_after_edit(v, lines, edits[0].0, edits[0].1),
            lines_after_edit(lines, edits[0].0, edits[0].1),
            edits.drop_first(),
        )
    }
}

/// Whether applying `edits` from the first to the last changes the text at
/// some step (see `edit_changes`).
pub open spec fn redo_changes(lines: Seq<Seq<char>>, edits: Seq<(Range, Seq<char>)>) -> bool
    decreases edits.len(),
{
    if edits.len() == 0 {
        false
    } else {
        edit_changes(lines, edits[0].0, edits[0].1) || redo_changes(
            lines_after_edit(lines, edits[0].0, edits[0].1),
            edits.drop_first(),
        )
    }
}

pub open spec fn next_version(v: i32) -> i32 {
    if v == i32::MAX {
        i32::MIN
    } else {
        (v + 1) as i32
    }
}

/// `x` clamped into `[lo, hi]`.
pub fn clamp_i32(x: i32, lo: i32, hi: i32) -> (r: i32)
    requires
        lo <= hi,
    ensures
        r == clamp_spec(x as int, lo as int, hi as int),
{
    if x < lo {
        lo
    } else if x > hi {
        hi
    } else {
        x
    }
}

/// The lines of `chars`, split at each line feed.
pub fn split_chars_into_lines(chars: &Vec<char>) -> (r: Vec<String>)
    ensures
        lines_of(r@) == split_lines(chars@),
{
    let mut r: Vec<String> = Vec::new();
    let mut start: usize = 0;
    let mut i: usize = 0;
    proof {
        assert(chars@.skip(0) =~= chars@);
        assert(lines_of(r@) =~= Seq::<Seq<char>>::empty());
        assert(lines_of(r@) + split_lines(chars@) =~= split_lines(chars@));
    }
    while i < chars.len()
        invariant
            start <= i <= chars.len(),
            lines_of(r@) + split_lines(chars@.skip(start as int)) == split_lines(chars@),
            forall|j: int| start <= j < i ==> chars@[j] != '\n',
        decreases chars.len() - i,
    {
        if chars[i] == '\n' {
            let line = string_from_range(chars, start, i);
            proof {
                let rest = chars@.skip(start as int);
                assert forall|j: int| 0 <= j < i - start implies rest[j] != '\n' by {
                    assert(rest[j] == chars@[start + j]);
                }
                lemma_split_at_newline(rest, i - start);
                assert(rest.take(i - start) =~= chars@.subrange(start as int, i as int));
                assert(rest.skip(i - start + 1) =~= chars@.skip(i + 1));
                assert(lines_of(r@.push(line)) =~= lines_of(r@).push(line@));
                assert(lines_of(r@.push(line)) + split_lines(chars@.skip(i + 1)) =~= lines_of(r@)
                    + split_lines(rest));
            }
            r.push(line);
            start = i + 1;
        }
        i += 1;
    }
    let line = string_from_range(chars, start, chars.len());
    proof {
        let rest = chars@.skip(start as int);
        assert(rest =~= chars@.subrange(start as int, chars@.len() as int));
        lemma_split_no_newline(rest);
        assert(lines_of(r@.push(line)) =~= lines_of(r@).push(line@));
        assert(lines_of(r@.push(line)) =~= lines_of(r@) + split_lines(rest));
    }
    r.push(line);
    r
}


/// How an edit moves the positions after it.
#[derive(Debug, Clone, Copy)]
pub enum PositionShift {
    /// Text was inserted over the given range.
    AfterInsert(Range),
    /// The given range was deleted.
    AfterDelete(Range),
}

/// `x` clamped into the range of `i32`.
pub open spec fn sat_i32(x: int) -> i32 {
    crate::position::sat_add_i32(x, 0)
}

/// Where `pos` moves to when text is inserted over `insert_range`: positions
/// before it stay, positions on its first row move with its end, positions
/// on later rows move down by its height.
pub open spec fn shift_after_insert(pos: Position, insert_range: Range) -> Position {
    if pos.precedes_spec(insert_range.start) {
        pos
    } else {
        Position {
            row: sat_i32(pos.row + insert_range.end.row - insert_range.start.row),
            column: if pos.row == insert_range.start.row {
                sat_i32(insert_range.end.column + pos.column - insert_range.start.column)
            } else {
                pos.column
            },
        }
    }
}

/// Where `pos` moves to when `delete_range` is deleted: positions before it
/// stay, positions inside it move to its start, positions after it move
/// back by its extent.
pub open spec fn shift_after_delete(pos: Position, delete_range: Range) -> Position {
    if pos.precedes_spec(delete_range.start) {
        pos
    } else if delete_range.start.precedes_or_eq_spec(pos) && pos.precedes_spec(delete_range.end) {
        delete_range.start
    } else {
        Position {
            row: sat_i32(pos.row - (delete_range.end.row - delete_range.start.row)),
            column: if pos.row == delete_range.end.row {
                sat_i32(delete_range.start.column + pos.column - delete_range.end.column)
            } else {
                pos.column
            },
        }
    }
}

pub open spec fn shift_position(pos: Position, shift: PositionShift) -> Position {
    match shift {
        PositionShift::AfterInsert(r) => shift_after_insert(pos, r),
        PositionShift::AfterDelete(r) => shift_after_delete(pos, r),
    }
}

pub open spec fn shift_selection(sel: Selection, shift: PositionShift) -> Selection {
    Selection { cursor: shift_position(sel.cursor, shift), anchor: shift_position(sel.anchor, shift) }
}

pub open spec fn shift_selections(sels: Seq<Selection>, shift: PositionShift) -> Seq<Selection> {
    sels.map_values(|s: Selection| shift_selection(s, shift))
}

/// Clamps a 64-bit value into the range of `i32`.
fn clamp_to_i32(x: i64) -> (r: i32)
    ensures
        r == sat_i32(x as int),
{
    crate::position::clamp_i64_to_i32(x)
}

impl TextBuffer {
    /// Where `pos` moves to when text is inserted over `insert_range`.
    pub fn adjust_position_after_insert_str(pos: Position, insert_range: Range) -> (r: Position)
        ensures
            r == shift_after_insert(pos, insert_range),
    {
        if pos.precedes(&insert_range.start) {
            return pos;
        }
        let row_diff = insert_range.end.row as i64 - insert_range.start.row as i64;
        let row = clamp_to_i32(pos.row as i64 + row_diff);
        let column;
        if pos.row == insert_range.start.row {
            let column_diff = pos.column as i64 - insert_range.start.column as i64;
            column = clamp_to_i32(insert_range.end.column as i64 + column_diff);
        } else {
            column = pos.column;
        }
        Position { column, row }
    }

    /// Where `pos` moves to when `delete_range` is deleted.
    pub fn adjust_position_after_delete_range(pos: Position, delete_range: Range) -> (r: Position)
        ensures
            r == shift_after_delete(pos, delete_range),
    {
        if pos.precedes(&delete_range.start) {
            return pos;
        }
        if delete_range.contains(pos) {
            return delete_range.start;
        }
        let row_diff = delete_range.end.row as i64 - delete_range.start.row as i64;
        let row = clamp_to_i32(pos.row as i64 - row_diff);
        let column;
        if pos.row == delete_range.end.row {
            let column_diff = pos.column as i64 - delete_range.end.column as i64;
            column = clamp_to_i32(delete_range.start.column as i64 + column_diff);
        } else {
            column = pos.column;
        }
        Position { column, row }
    }
}

fn shift_position_exec(pos: Position, shift: PositionShift) -> (r: Position)
    ensures
        r == shift_position(pos, shift),
{
    match shift {
        PositionShift::AfterInsert(range) => TextBuffer::adjust_position_after_insert_str(pos, range),
        PositionShift::AfterDelete(range) => TextBuffer::adjust_position_after_delete_range(pos, range),
    }
}

fn shift_selection_exec(sel: Selection, shift: PositionShift) -> (r: Selection)
    ensures
        r == shift_selection(sel, shift),
{
    let cursor = shift_position_exec(sel.cursor, shift);
    let anchor = shift_position_exec(sel.anchor, shift);
    sel.with_anchor(anchor).with_cursor(cursor)
}

fn shift_selections_exec(sels: &Selections, shift: PositionShift) -> (r: Selections)
    ensures
        r.all_spec() == shift_selections(sels.all_spec(), shift),
{
    let primary = shift_selection_exec(sels.primary_selection, shift);
    let mut extra: Vec<Selection> = Vec::new();
    let mut i: usize = 0;
    while i < sels.extra_selections.len()
        invariant
            i <= sels.extra_selections@.len(),
            extra@ == sels.extra_selections@.take(i as int).map_values(|s: Selection| shift_selection(s, shift)),
        decreases sels.extra_selections@.len() - i,
    {
        let s = shift_selection_exec(sels.extra_selections[i], shift);
        extra.push(s);
        i += 1;
        proof {
            assert(extra@ =~= sels.extra_selections@.take(i as int).map_values(
                |s: Selection| shift_selection(s, shift),
            ));
        }
    }
    let r = Selections { primary_selection: primary, extra_selections: extra };
    proof {
        assert(sels.extra_selections@.take(i as int) =~= sels.extra_selections@);
        assert(r.all_spec() =~= shift_selections(sels.all_spec(), shift));
    }
    r
}

/// Moves every selection of every view as the edit described by `shift` moves them.
fn shift_all_selections(all: &mut AllSelections, shift: PositionShift)
    requires
        old(all).wf(),
    ensures
        final(all).wf(),
        final(all).view_spec().dom() == old(all).view_spec().dom(),
        forall|v: u64|
            #[trigger] old(all).view_spec().contains_key(v) ==> final(all).view_spec()[v]
                == shift_selections(old(all).view_spec()[v], shift),
{
    let mut i: usize = 0;
    while i < all.entries.len()
        invariant
            i <= all.entries@.len(),
            all.entries@.len() == old(all).entries@.len(),
            forall|j: int| 0 <= j < all.entries@.len() ==> all.entries@[j].0 == old(all).entries@[j].0,
            forall|j: int|
                0 <= j < i ==> all.entries@[j].1.all_spec() == shift_selections(
                    old(all).entries@[j].1.all_spec(),
                    shift,
                ),
            forall|j: int| i <= j < all.entries@.len() ==> all.entries@[j] == old(all).entries@[j],
        decreases all.entries@.len() - i,
    {
        let (view, sels) = all.entries.remove(i);
        let shifted = shift_selections_exec(&sels, shift);
        all.entries.insert(i, (view, shifted));
        i += 1;
    }
    proof {
        assert forall|v: u64| all.has_view(v) == old(all).has_view(v) by {
            if all.has_view(v) {
                let k = all.index_of_view(v);
                assert(old(all).entries@[k].0 == v);
            }
            if old(all).has_view(v) {
                let k = old(all).index_of_view(v);
                assert(all.entries@[k].0 == v);
            }
        }
        assert forall|v: u64| #[trigger] all.has_view(v) implies all.index_of_view(v) == old(all).index_of_view(v) by {
            let k = all.index_of_view(v);
            assert(old(all).entries@[k].0 == v);
        }
        assert(all.view_spec().dom() =~= old(all).view_spec().dom());
    }
}


impl TextBuffer {
    /// Inserts `s` at `at`, limited to the content, and returns the range it
    /// covers. Use `apply_edit` rather than this.
    fn insert_str(&mut self, at: Position, s: &str) -> (r: Result<Range, String>)
        requires
            old(self).wf(),
            old(self).content().len() + s@.len() < i32::MAX,
        ensures
            final(self).wf(),
            ({
                let a = old(self).limit_position_spec(at);
                &&& final(self).lines_view() == insert_lines(
                    old(self).lines_view(),
                    a.row as int,
                    a.column as int,
                    s@,
                )
                &&& final(self).content() == old(self).content().take(old(self).offset_of(a)) + s@
                    + old(self).content().skip(old(self).offset_of(a))
                &&& r == Ok::<Range, String>(inserted_range_spec(old(self).lines_view(), a, s@))
                &&& final(self).selections.view_spec().dom() == old(self).selections.view_spec().dom()
                &&& forall|v: u64|
                    #[trigger] old(self).selections.view_spec().contains_key(v) ==> final(self).selections.view_spec()[v] == shift_selections(
                        old(self).selections.view_spec()[v],
                        PositionShift::AfterInsert(Range { start: a, end: insert_end_spec(a, s@) }),
                    )
            }),
            final(self).dirty,
            final(self).content_version == next_version(old(self).content_version),
            final(self).history == old(self).history,
            final(self).path == old(self).path,
    {
        let ghost old_lines = self.lines_view();
        let at = self.limit_position_to_content(at);
        let row_idx = at.row as usize;
        let col = at.column as usize;
        proof {
            lemma_lines_bounded(old_lines);
            assert(old_lines[row_idx as int] == self.lines@[row_idx as int]@);
        }

        let mut tail = self.lines.split_off(row_idx + 1);
        let dst_line = self.lines.pop().unwrap();
        let dst = chars_of(dst_line.as_str());
        let half1 = string_from_range(&dst, 0, col);
        let half2 = string_from_range(&dst, col, dst.len());
        let s_chars = chars_of(s);
        let parts = split_chars_into_lines(&s_chars);
        let n = parts.len();
        let ghost pv = split_lines(s@);
        let ghost m = extend_ends(pv, half1@, half2@);
        proof {
            lemma_join_split(s@);
            assert(lines_of(parts@) == pv);
            assert(half1@ == old_lines[row_idx as int].take(col as int));
            assert(half2@ == old_lines[row_idx as int].skip(col as int));
            lemma_insert_lines(old_lines, at.row as int, at.column as int, s@);
            assert(self.lines_view() =~= old_lines.take(row_idx as int));
            assert(lines_of(tail@) =~= old_lines.skip(row_idx + 1));
        }
        let mut range_end_column: usize = 0;
        let mut k: usize = 0;
        while k < n
            invariant
                n == parts@.len(),
                n == pv.len(),
                n > 0,
                lines_of(parts@) == pv,
                k <= n,
                self.lines_view() == old_lines.take(row_idx as int) + m.take(k as int),
                m == extend_ends(pv, half1@, half2@),
                k == n ==> range_end_column == (if n == 1 {
                    (half1@.len() + pv[0].len()) as int
                } else {
                    pv[n - 1].len() as int
                }),
                half1@.len() + s@.len() + half2@.len() < i32::MAX,
                join_lines(pv) == s@,
                self.selections == old(self).selections,
                self.history == old(self).history,
                self.path == old(self).path,
                self.dirty == old(self).dirty,
                self.content_version == old(self).content_version,
            decreases n - k,
        {
            let mut line = String::new();
            if k == 0 {
                push_str(&mut line, half1.as_str());
            }
            push_str(&mut line, parts[k].as_str());
            if k == n - 1 {
                range_end_column = char_count(line.as_str());
                push_str(&mut line, half2.as_str());
            }
            proof {
                lemma_extend_ends_index(pv, half1@, half2@, k as int);
                assert(lines_of(parts@)[k as int] == parts@[k as int]@);
                assert(line@ =~= m[k as int]);
                assert(self.lines_view().push(line@) =~= old_lines.take(row_idx as int) + m.take(k + 1));
                assert(lines_of(self.lines@.push(line)) =~= self.lines_view().push(line@));
            }
            self.lines.push(line);
            k += 1;
        }
        self.lines.append(&mut tail);
        proof {
            assert(m.take(n as int) =~= m);
            assert(self.lines_view() =~= insert_lines(old_lines, at.row as int, at.column as int, s@));
        }
        self.mark_dirty();
        proof {
            lemma_lines_bounded(self.lines_view());
        }

        let range_row_diff = (n - 1) as i32;
        let range_end = Position::new(range_end_column as i32, at.row + range_row_diff);
        let mut range = Range::from_positions(at, range_end);
        shift_all_selections(&mut self.selections, PositionShift::AfterInsert(range));

        // A range that ends at column 0 is the same as one that ends past the
        // line terminator of the previous line, but the latter is how a
        // selection is formed from the range.
        if range.end.column == 0 && range.end.row != 0 {
            let prev_row = range.end.row - 1;
            let prev_line_last_column = match self.line_char_count(prev_row) {
                Some(c) => c,
                None => 0,
            };
            proof {
                assert(self.lines_view()[prev_row as int] == self.lines@[prev_row as int]@);
            }
            range.end = Position::new(prev_line_last_column + 1, prev_row);
        }
        Ok(range)
    }
}


impl TextBuffer {
    /// The range that `delete_range` deletes (see `deleted_span_in`).
    pub open spec fn deleted_span(self, range: Range) -> Range {
        deleted_span_in(self.lines_view(), range)
    }

    /// Whether deleting `range` is defined (see `can_delete_in`).
    pub open spec fn can_delete(self, range: Range) -> bool {
        can_delete_in(self.lines_view(), range)
    }

    /// Deletes the characters of `range` (see `deleted_span`). Use
    /// `apply_edit` rather than this.
    fn delete_range(&mut self, range: Range) -> (r: Result<(), String>)
        requires
            old(self).wf(),
            old(self).can_delete(range),
        ensures
            final(self).wf(),
            r.is_ok(),
            ({
                let d = old(self).deleted_span(range);
                if d.start == d.end {
                    *final(self) == *old(self)
                } else {
                    &&& final(self).lines_view() == delete_lines(
                        old(self).lines_view(),
                        d.start.row as int,
                        d.start.column as int,
                        d.end.row as int,
                        d.end.column as int,
                    )
                    &&& final(self).content() == old(self).content().take(old(self).offset_of(d.start))
                        + old(self).content().skip(old(self).offset_of(d.end))
                    &&& final(self).content().len() <= old(self).content().len()
                    &&& final(self).selections.view_spec().dom() == old(self).selections.view_spec().dom()
                    &&& forall|v: u64|
                        #[trigger] old(self).selections.view_spec().contains_key(v) ==> final(self).selections.view_spec()[v]
                            == shift_selections(
                            old(self).selections.view_spec()[v],
                            PositionShift::AfterDelete(d),
                        )
                    &&& final(self).dirty
                    &&& final(self).content_version == next_version(old(self).content_version)
                    &&& final(self).history == old(self).history
                    &&& final(self).path == old(self).path
                }
            }),
    {
        let span = self.deleted_span_exec(range);
        if span.is_empty() {
            return Ok(());
        }
        self.delete_span(span);
        shift_all_selections(&mut self.selections, PositionShift::AfterDelete(span));
        Ok(())
    }

    /// Whether deleting `range` is defined (see `can_delete`).
    pub fn can_delete_range(&self, range: Range) -> (r: bool)
        requires
            self.wf(),
        ensures
            r == self.can_delete(range),
            ({
                let d = self.deleted_span(range);
                d.start != d.end ==> 0 <= d.end.row < self.lines@.len() && 0 <= d.end.column <= self.line_len(
                    d.end.row as int,
                ) && 0 <= d.start.row <= d.end.row && 0 <= d.start.column && (d.start.row == d.end.row
                    ==> d.start.column <= d.end.column)
            }),
    {
        let d = self.deleted_span_exec(range);
        if d.start == d.end {
            return true;
        }
        proof {
            lemma_lines_bounded(self.lines_view());
            assert(self.lines_view()[d.start.row as int] == self.lines@[d.start.row as int]@);
        }
        match self.line_char_count(d.start.row) {
            Some(c) => d.start.column <= c,
            None => false,
        }
    }

    fn deleted_span_exec(&self, range: Range) -> (r: Range)
        requires
            self.wf(),
        ensures
            r == self.deleted_span(range),
            r.start != r.end ==> 0 <= r.end.row < self.lines@.len() && 0 <= r.end.column <= self.line_len(
                r.end.row as int,
            ) && 0 <= r.start.row <= r.end.row && 0 <= r.start.column && (r.start.row == r.end.row
                ==> r.start.column <= r.end.column),
    {
        let mut range = self.limit_range_to_content(range).normalized();
        // Check if there is actual work to be done.
        if range.is_empty() {
            return range;
        }
        proof {
            lemma_lines_bounded(self.lines_view());
            assert(self.lines_view()[range.end.row as int] == self.lines@[range.end.row as int]@);
        }
        let end_line_count = match self.line_char_count(range.end.row) {
            Some(c) => c,
            None => 0,
        };
        if end_line_count < range.end.column {
            if range.end.row != self.last_row() {
                // Fix up the range to handle a line terminator at its end.
                range.end = Position::new(0, range.end.row + 1);
            } else {
                // Don't delete past the end of the buffer: collapse the range.
                range.end.column = range.end.column - 1;
            }
        }
        range
    }

    /// Deletes from the start to the end of `span`, both inside the content.
    fn delete_span(&mut self, span: Range)
        requires
            old(self).wf(),
            0 <= span.start.row <= span.end.row < old(self).lines@.len(),
            0 <= span.start.column <= old(self).line_len(span.start.row as int),
            0 <= span.end.column <= old(self).line_len(span.end.row as int),
            span.start.row == span.end.row ==> span.start.column <= span.end.column,
        ensures
            final(self).wf(),
            final(self).lines_view() == delete_lines(
                old(self).lines_view(),
                span.start.row as int,
                span.start.column as int,
                span.end.row as int,
                span.end.column as int,
            ),
            final(self).content() == old(self).content().take(old(self).offset_of(span.start))
                + old(self).content().skip(old(self).offset_of(span.end)),
            final(self).content().len() <= old(self).content().len(),
            final(self).selections == old(self).selections,
            final(self).dirty,
            final(self).content_version == next_version(old(self).content_version),
            final(self).history == old(self).history,
            final(self).path == old(self).path,
    {
        let ghost old_lines = self.lines_view();
        let sr = span.start.row as usize;
        let er = span.end.row as usize;
        let sc = span.start.column as usize;
        let ec = span.end.column as usize;
        proof {
            assert(old_lines[sr as int] == self.lines@[sr as int]@);
            assert(old_lines[er as int] == self.lines@[er as int]@);
            lemma_delete_lines(old_lines, sr as int, sc as int, er as int, ec as int);
        }
        let mut tail = self.lines.split_off(er + 1);
        let block = self.lines.split_off(sr);
        proof {
            assert(block@[0]@ == old_lines[sr as int]);
            assert(block@[block@.len() - 1]@ == old_lines[er as int]);
        }
        let first_chars = chars_of(block[0].as_str());
        let last_chars = chars_of(block[block.len() - 1].as_str());
        let mut line_left = string_from_range(&first_chars, 0, sc);
        let rest = string_from_range(&last_chars, ec, last_chars.len());
        push_str(&mut line_left, rest.as_str());
        proof {
            assert(lines_of(self.lines@.push(line_left)) =~= old_lines.take(sr as int).push(line_left@));
        }
        self.lines.push(line_left);
        self.lines.append(&mut tail);
        proof {
            assert(self.lines_view() =~= delete_lines(old_lines, sr as int, sc as int, er as int, ec as int));
        }
        self.mark_dirty();
    }
}


impl TextBuffer {
    /// See `segment_text_in`.
    pub open spec fn segment_text_spec(self, start: Position, end: Position, row: int) -> Seq<char> {
        segment_text_in(self.lines_view(), start, end, row)
    }

    /// See `rows_text_in`.
    pub open spec fn rows_text_spec(self, start: Position, end: Position, last_row: int) -> Seq<char> {
        rows_text_in(self.lines_view(), start, end, last_row)
    }

    /// See `selection_text_in`.
    pub open spec fn selection_text_spec(self, selection: Selection) -> Seq<char> {
        selection_text_in(self.lines_view(), selection)
    }

    fn segment_text(&self, start: Position, end: Position, row: Row) -> (r: String)
        requires
            self.wf(),
            start.precedes_or_eq_spec(end),
        ensures
            r@ == self.segment_text_spec(start, end, row as int),
    {
        let ls = Position::new(if row == start.row { start.column } else { 0 }, row);
        let le = Position::new(if row == end.row { end.column } else { i32::MAX }, row);
        let cs = self.limit_position_to_content(ls);
        let ce = self.limit_position_to_content(le);
        let line = chars_of(self.lines[cs.row as usize].as_str());
        if ce.column as usize >= line.len() {
            let mut r = string_from_range(&line, cs.column as usize, line.len());
            if ce.row != self.last_row() {
                push_char(&mut r, '\n');
            }
            proof {
                assert(line@.subrange(cs.column as int, line@.len() as int) =~= line@.skip(cs.column as int));
            }
            r
        } else {
            string_from_range(&line, cs.column as usize, ce.column as usize + 1)
        }
    }

    /// The text of a selection (see `selection_text_spec`).
    pub fn selection_text(&self, selection: &Selection) -> (r: Option<String>)
        requires
            self.wf(),
        ensures
            r.is_some(),
            r->Some_0@ == self.selection_text_spec(*selection),
    {
        let start = selection.start();
        let end = selection.end();
        let mut text = String::new();
        let mut row: i64 = start.row as i64;
        while row <= end.row as i64
            invariant
                self.wf(),
                start == selection.start_spec(),
                end == selection.end_spec(),
                start.precedes_or_eq_spec(end),
                start.row <= row <= end.row + 1 || (row == start.row && start.row > end.row),
                text@ == self.rows_text_spec(start, end, row - 1),
            decreases end.row + 1 - row,
        {
            let seg = self.segment_text(start, end, row as i32);
            push_str(&mut text, seg.as_str());
            row += 1;
        }
        Some(text)
    }

    /// The text of a range: empty for an empty range, otherwise the text of
    /// the selection from its (ordered) start to the column before its end.
    pub fn range_text(&self, range: Range) -> (r: Result<String, String>)
        requires
            self.wf(),
        ensures
            r.is_ok(),
            ({
                let n = range.normalized_spec();
                if n.start == n.end {
                    r->Ok_0@ == Seq::<char>::empty()
                } else {
                    r->Ok_0@ == self.selection_text_spec(
                        Selection {
                            anchor: n.start,
                            cursor: n.end.offset_spec(Offset { column: -1i32, row: 0i32 }),
                        },
                    )
                }
            }),
    {
        let range = range.normalized();
        if range.is_empty() {
            return Ok(String::new());
        }
        let sel = Selection::new().with_start_and_end(range.start, range.end.offset(Offset::new(-1, 0)));
        match self.selection_text(&sel) {
            Some(s) => Ok(s),
            None => Ok(String::new()),
        }
    }
}


impl TextBuffer {
    /// Applies an edit: deletes its range (see `deleted_span_in`), then
    /// inserts its text where its range starts, and records in the history
    /// the edit that undoes it, which it returns.
    pub fn apply_edit(&mut self, edit: &TextEdit) -> (r: Result<TextEdit, String>)
        requires
            old(self).wf(),
            edit_allowed(old(self).lines_view(), edit.range, edit.text@),
        ensures
            final(self).wf(),
            r.is_ok(),
            final(self).lines_view() == lines_after_edit(old(self).lines_view(), edit.range, edit.text@),
            r->Ok_0.view_spec() == inverse_edit_in(old(self).lines_view(), edit.range, edit.text@),
            final(self).selections.view_spec().dom() == old(self).selections.view_spec().dom(),
            forall|v: u64|
                #[trigger] old(self).selections.view_spec().contains_key(v) ==> final(self).selections.view_spec()[v]
                    == selections_after_edit(
                    old(self).selections.view_spec()[v],
                    old(self).lines_view(),
                    edit.range,
                    edit.text@,
                ),
            old(self).history.records(
                final(self).history,
                r->Ok_0.view_spec(),
                old(self).selections.view_spec(),
                final(self).selections.view_spec(),
            ),
            final(self).path == old(self).path,
            final(self).content_version == version_after_edit(
                old(self).content_version,
                old(self).lines_view(),
                edit.range,
                edit.text@,
            ),
            final(self).dirty == (old(self).dirty || edit_changes(old(self).lines_view(), edit.range, edit.text@)),
    {
        let selections_backup = self.selections.clone();
        let original_text = match self.range_text(edit.range) {
            Ok(t) => t,
            Err(e) => return Err(e),
        };
        let mut inverse_edit = TextEdit { range: Range::from_position(edit.range.start), text: original_text };

        let should_delete = !edit.range.is_empty();
        if should_delete {
            match self.delete_range(edit.range) {
                Ok(()) => {},
                Err(e) => return Err(e),
            }
        }
        proof {
            assert(self.lines_view() == lines_after_delete(old(self).lines_view(), edit.range));
        }
        let should_insert = !edit.text.as_str().is_empty();
        if should_insert {
            match self.insert_str(edit.range.normalized().start, edit.text.as_str()) {
                Ok(insert_range) => {
                    inverse_edit.range = insert_range;
                },
                Err(e) => return Err(e),
            }
        }
        self.history.record_edit(inverse_edit.clone(), &selections_backup, &self.selections);
        Ok(inverse_edit)
    }
}


impl TextBuffer {
    /// What undoing the current group (the one before the group index) gives
    /// `next` (see `undo`): its edits applied from the last to the first and
    /// replaced by their inverses, the selections from before the group, the
    /// group index one back, the other groups kept.
    pub open spec fn undone(self, next: TextBuffer) -> bool {
        let i = self.history.current_group_edge_idx - 1;
        let edits = self.history.group_edits(i);
        let g = self.history.edit_groups@[i];
        let h = next.history.edit_groups@[i];
        &&& next.lines_view() == undo_lines(self.lines_view(), edits)
        &&& next.content_version == undo_version(self.content_version, self.lines_view(), edits)
        &&& next.dirty == (self.dirty || undo_changes(self.lines_view(), edits))
        &&& next.selections.view_spec() == g.selections_before.view_spec()
        &&& next.history.current_group_edge_idx == i
        &&& next.history.edit_groups@.len() == self.history.edit_groups@.len()
        &&& next.history.group_edits(i) == undo_inverses(self.lines_view(), edits)
        &&& h.is_complete
        &&& h.selections_before.view_spec() == g.selections_before.view_spec()
        &&& h.selections_after.view_spec() == g.selections_after.view_spec()
        &&& forall|j: int|
            0 <= j < self.history.edit_groups@.len() && j != i ==> next.history.edit_groups@[j]
                == self.history.edit_groups@[j]
        &&& next.path == self.path
    }
}

impl TextBuffer {
    /// Undoes the current group of edits: applies its edits from the last to
    /// the first, replacing each by its inverse, restores the selections from
    /// before the group, and moves the history back one group. Returns false
    /// when there is nothing to undo.
    pub fn undo(&mut self) -> (r: Result<bool, String>)
        requires
            old(self).wf(),
            old(self).history.current_group_edge_idx > 0 ==> undo_allowed(
                old(self).lines_view(),
                old(self).history.group_edits(old(self).history.current_group_edge_idx - 1),
            ),
        ensures
            final(self).wf(),
            r.is_ok(),
            old(self).history.current_group_edge_idx == 0 ==> r->Ok_0 == false && *final(self) == *old(self),
            old(self).history.current_group_edge_idx > 0 ==> r->Ok_0 == true && old(self).undone(*final(self)),
    {
        if !self.history.can_undo() {
            return Ok(false);
        }
        let mut history = TextBufferHistory::new();
        std::mem::swap(&mut history, &mut self.history);
        history.record_checkpoint();
        let mut group = match history.take_current_edit_group() {
            Some(g) => g,
            None => return Ok(false),
        };
        let ghost l0 = self.lines_view();
        let ghost e0 = group.edits@.map_values(|e: TextEdit| e.view_spec());
        let n = group.edits.len();
        let mut i = n;
        proof {
            assert(e0.take(n as int) =~= e0);
            assert(group.edits@.map_values(|e: TextEdit| e.view_spec()).skip(n as int) =~= Seq::<(Range, Seq<char>)>::empty());
            assert(undo_inverses(l0, e0) =~= undo_inverses(l0, e0.take(n as int)) + Seq::<(Range, Seq<char>)>::empty());
        }
        while i > 0
            invariant
                self.wf(),
                self.path == old(self).path,
                i <= n,
                n == group.edits@.len(),
                e0.len() == n,
                group.wf(),
                group.is_complete,
                group.selections_before == old(self).history.edit_groups@[old(self).history.current_group_edge_idx - 1].selections_before,
                group.selections_after == old(self).history.edit_groups@[old(self).history.current_group_edge_idx - 1].selections_after,
                group.edits@.map_values(|e: TextEdit| e.view_spec()).take(i as int) == e0.take(i as int),
                undo_lines(self.lines_view(), e0.take(i as int)) == undo_lines(l0, e0),
                undo_version(self.content_version, self.lines_view(), e0.take(i as int)) == undo_version(
                    old(self).content_version,
                    l0,
                    e0,
                ),
                (self.dirty || undo_changes(self.lines_view(), e0.take(i as int))) == (old(self).dirty
                    || undo_changes(l0, e0)),
                l0 == old(self).lines_view(),
                undo_allowed(self.lines_view(), e0.take(i as int)),
                undo_inverses(l0, e0) == undo_inverses(self.lines_view(), e0.take(i as int)) + group.edits@.map_values(
                    |e: TextEdit| e.view_spec(),
                ).skip(i as int),
            decreases i,
        {
            let ghost cur = self.lines_view();
            let ghost ev = group.edits@.map_values(|e: TextEdit| e.view_spec());
            proof {
                assert(e0.take(i as int).last() == e0[i - 1]);
                assert(ev[i - 1] == ev.take(i as int)[i - 1]);
                assert(e0.take(i as int).drop_last() =~= e0.take(i - 1));
            }
            let rev = match self.apply_edit(&group.edits[i - 1]) {
                Ok(rev) => rev,
                Err(e) => return Err(e),
            };
            group.edits.remove(i - 1);
            group.edits.insert(i - 1, rev);
            proof {
                let ev2 = group.edits@.map_values(|e: TextEdit| e.view_spec());
                assert(ev2.take(i - 1) =~= e0.take(i - 1)) by {
                    assert(ev.take(i as int).take(i - 1) =~= ev2.take(i - 1));
                    assert(e0.take(i as int).take(i - 1) =~= e0.take(i - 1));
                }
                assert(ev2.skip(i - 1) =~= seq![rev.view_spec()] + ev.skip(i as int));
                assert(undo_inverses(cur, e0.take(i as int)) == undo_inverses(self.lines_view(), e0.take(i - 1)).push(rev.view_spec()));
                assert(undo_inverses(l0, e0) =~= undo_inverses(self.lines_view(), e0.take(i - 1)) + ev2.skip(i - 1));
            }
            i -= 1;
        }
        proof {
            assert(e0.take(0) =~= Seq::<(Range, Seq<char>)>::empty());
            assert(group.edits@.map_values(|e: TextEdit| e.view_spec()).skip(0) =~= group.edits@.map_values(|e: TextEdit| e.view_spec()));
        }
        self.selections = group.selections_before.clone();
        history.put_current_edit_group(group);
        history.current_group_edge_idx = history.current_group_edge_idx - 1;
        self.history = history;
        Ok(true)
    }
}


impl TextBuffer {
    /// What redoing the group after the group index gives `next` (see
    /// `redo`): its edits applied from the first to the last and replaced by
    /// their inverses, the selections from after the group, the group index
    /// one on, the other groups kept.
    pub open spec fn redone(self, next: TextBuffer) -> bool {
        let i = self.history.current_group_edge_idx as int;
        let edits = self.history.group_edits(i);
        let g = self.history.edit_groups@[i];
        let h = next.history.edit_groups@[i];
        &&& next.lines_view() == redo_lines(self.lines_view(), edits)
        &&& next.content_version == redo_version(self.content_version, self.lines_view(), edits)
        &&& next.dirty == (self.dirty || redo_changes(self.lines_view(), edits))
        &&& next.selections.view_spec() == g.selections_after.view_spec()
        &&& next.history.current_group_edge_idx == i + 1
        &&& next.history.edit_groups@.len() == self.history.edit_groups@.len()
        &&& next.history.group_edits(i) == redo_inverses(self.lines_view(), edits)
        &&& h.is_complete == g.is_complete
        &&& h.selections_before.view_spec() == g.selections_before.view_spec()
        &&& h.selections_after.view_spec() == g.selections_after.view_spec()
        &&& forall|j: int|
            0 <= j < self.history.edit_groups@.len() && j != i ==> next.history.edit_groups@[j]
                == self.history.edit_groups@[j]
        &&& next.path == self.path
    }
}

impl TextBuffer {
    /// Redoes the group after the current one: applies its edits from the
    /// first to the last, replacing each by its inverse, restores the
    /// selections from after the group, and moves the history forward one
    /// group. Returns false when there is nothing to redo.
    pub fn redo(&mut self) -> (r: Result<bool, String>)
        requires
            old(self).wf(),
            old(self).history.current_group_edge_idx < old(self).history.edit_groups@.len() ==> redo_allowed(
                old(self).lines_view(),
                old(self).history.group_edits(old(self).history.current_group_edge_idx as int),
            ),
        ensures
            final(self).wf(),
            r.is_ok(),
            old(self).history.current_group_edge_idx == old(self).history.edit_groups@.len() ==> r->Ok_0
                == false && *final(self) == *old(self),
            old(self).history.current_group_edge_idx < old(self).history.edit_groups@.len() ==> r->Ok_0 == true
                && old(self).redone(*final(self)),
    {
        if !self.history.can_redo() {
            return Ok(false);
        }
        let mut history = TextBufferHistory::new();
        std::mem::swap(&mut history, &mut self.history);
        let group_count = history.edit_groups.len();
        assert(history.current_group_edge_idx < group_count);
        history.current_group_edge_idx = history.current_group_edge_idx + 1;
        let mut group = match history.take_current_edit_group() {
            Some(g) => g,
            None => return Ok(false),
        };
        let ghost l0 = self.lines_view();
        let ghost e0 = group.edits@.map_values(|e: TextEdit| e.view_spec());
        let n = group.edits.len();
        let mut i: usize = 0;
        proof {
            assert(e0.skip(0) =~= e0);
            assert(group.edits@.map_values(|e: TextEdit| e.view_spec()).take(0) =~= Seq::<(Range, Seq<char>)>::empty());
            assert(redo_inverses(l0, e0) =~= Seq::<(Range, Seq<char>)>::empty() + redo_inverses(l0, e0.skip(0)));
        }
        while i < n
            invariant
                self.wf(),
                self.path == old(self).path,
                i <= n,
                n == group.edits@.len(),
                e0.len() == n,
                group.wf(),
                group.is_complete == old(self).history.edit_groups@[old(self).history.current_group_edge_idx as int].is_complete,
                group.selections_before == old(self).history.edit_groups@[old(self).history.current_group_edge_idx as int].selections_before,
                group.selections_after == old(self).history.edit_groups@[old(self).history.current_group_edge_idx as int].selections_after,
                group.edits@.map_values(|e: TextEdit| e.view_spec()).skip(i as int) == e0.skip(i as int),
                redo_lines(self.lines_view(), e0.skip(i as int)) == redo_lines(l0, e0),
                redo_version(self.content_version, self.lines_view(), e0.skip(i as int)) == redo_version(
                    old(self).content_version,
                    l0,
                    e0,
                ),
                (self.dirty || redo_changes(self.lines_view(), e0.skip(i as int))) == (old(self).dirty
                    || redo_changes(l0, e0)),
                l0 == old(self).lines_view(),
                redo_allowed(self.lines_view(), e0.skip(i as int)),
                redo_inverses(l0, e0) == group.edits@.map_values(|e: TextEdit| e.view_spec()).take(i as int)
                    + redo_inverses(self.lines_view(), e0.skip(i as int)),
            decreases n - i,
        {
            let ghost cur = self.lines_view();
            let ghost ev = group.edits@.map_values(|e: TextEdit| e.view_spec());
            proof {
                assert(e0.skip(i as int)[0] == e0[i as int]);
                assert(ev[i as int] == ev.skip(i as int)[0]);
                assert(e0.skip(i as int).drop_first() =~= e0.skip(i + 1));
            }
            let rev = match self.apply_edit(&group.edits[i]) {
                Ok(rev) => rev,
                Err(e) => return Err(e),
            };
            group.edits.remove(i);
            group.edits.insert(i, rev);
            proof {
                let ev2 = group.edits@.map_values(|e: TextEdit| e.view_spec());
                assert(ev2.skip(i + 1) =~= e0.skip(i + 1)) by {
                    assert(ev.skip(i as int).skip(1) =~= ev2.skip(i + 1));
                    assert(e0.skip(i as int).skip(1) =~= e0.skip(i + 1));
                }
                assert(ev2.take(i + 1) =~= ev.take(i as int).push(rev.view_spec()));
                assert(redo_inverses(cur, e0.skip(i as int)) == seq![rev.view_spec()] + redo_inverses(self.lines_view(), e0.skip(i + 1)));
                assert(redo_inverses(l0, e0) =~= ev2.take(i + 1) + redo_inverses(self.lines_view(), e0.skip(i + 1)));
            }
            i += 1;
        }
        proof {
            assert(e0.skip(n as int) =~= Seq::<(Range, Seq<char>)>::empty());
            assert(group.edits@.map_values(|e: TextEdit| e.view_spec()).take(n as int) =~= group.edits@.map_values(|e: TextEdit| e.view_spec()));
        }
        self.selections = group.selections_after.clone();
        history.put_current_edit_group(group);
        self.history = history;
        Ok(true)
    }

    /// What closing the current group of edits gives `next` (see
    /// `checkpoint`): the history at a checkpoint, with the same groups and
    /// the same group index, and nothing else changed.
    pub open spec fn checkpointed(self, next: TextBuffer) -> bool {
        &&& next.wf()
        &&& next.history.at_checkpoint()
        &&& next.history.current_group_edge_idx == self.history.current_group_edge_idx
        &&& next.history.edit_groups@.len() == self.history.edit_groups@.len()
        &&& forall|i: int|
            0 <= i < self.history.edit_groups@.len() ==> next.history.group_edits(i) == self.history.group_edits(i)
                && (#[trigger] next.history.edit_groups@[i]).selections_before == self.history.edit_groups@[i].selections_before
                && next.history.edit_groups@[i].selections_after == self.history.edit_groups@[i].selections_after
        &&& next.lines == self.lines
        &&& next.selections == self.selections
        &&& next.path == self.path
        &&& next.dirty == self.dirty
        &&& next.content_version == self.content_version
    }

    /// Closes the current group of edits: the next edit opens a new group.
    pub fn checkpoint(&mut self)
        requires
            old(self).wf(),
        ensures
            old(self).checkpointed(*final(self)),
    {
        self.history.record_checkpoint();
    }
}


impl TextEdit {
    /// An edit that inserts `s` at `at`.
    pub fn insert_str_at(s: String, at: Position) -> (r: Self)
        ensures
            r.range == (Range { start: at, end: at }),
            r.text@ == s@,
    {
        Self { range: Range::from_position(at), text: s }
    }

    /// An edit that inserts the character `ch` at `at`.
    pub fn insert_char_at(ch: char, at: Position) -> (r: Self)
        ensures
            r.range == (Range { start: at, end: at }),
            r.text@ == seq![ch],
    {
        let mut s = String::new();
        push_char(&mut s, ch);
        proof {
            assert(s@ =~= seq![ch]);
        }
        Self::insert_str_at(s, at)
    }

    /// An edit that deletes the characters of `range`.
    pub fn delete_range(range: Range) -> (r: Self)
        ensures
            r.range == range,
            r.text@ == Seq::<char>::empty(),
    {
        Self { range, text: String::new() }
    }

    /// An edit that deletes the selected characters.
    pub fn delete_selection(selection: &Selection) -> (r: Self)
        ensures
            r.range.start == selection.start_spec(),
            r.range.end == selection.end_spec().offset_spec(Offset { column: 1, row: 0 }),
            r.text@ == Seq::<char>::empty(),
    {
        Self::delete_range(selection.to_range())
    }

    /// An edit that deletes the character at `at`.
    pub fn delete_at(at: Position) -> (r: Self)
        ensures
            r.range == (Range { start: at, end: at.offset_spec(Offset { column: 1, row: 0 }) }),
            r.text@ == Seq::<char>::empty(),
    {
        Self::delete_range(Range::from_positions(at, at.offset(Offset::new(1, 0))))
    }

    /// Whether the edit changes nothing: its range is empty and so is its text.
    pub fn is_empty(&self) -> (r: bool)
        ensures
            r == (self.range.start == self.range.end && self.text@.len() == 0),
    {
        self.range.is_empty() && self.text.as_str().is_empty()
    }
}

impl TextBuffer {
    /// What applying the edit `(range, text)` to `self` gives `next`, with
    /// `inverse` the edit that undoes it (see `apply_edit`).
    pub open spec fn edit_applied(
        self,
        next: TextBuffer,
        range: Range,
        text: Seq<char>,
        inverse: (Range, Seq<char>),
    ) -> bool {
        &&& next.wf()
        &&& next.lines_view() == lines_after_edit(self.lines_view(), range, text)
        &&& inverse == inverse_edit_in(self.lines_view(), range, text)
        &&& next.selections.view_spec().dom() == self.selections.view_spec().dom()
        &&& forall|v: u64|
            #[trigger] self.selections.view_spec().contains_key(v) ==> next.selections.view_spec()[v]
                == selections_after_edit(self.selections.view_spec()[v], self.lines_view(), range, text)
        &&& self.history.records(next.history, inverse, self.selections.view_spec(), next.selections.view_spec())
        &&& next.path == self.path
        &&& next.content_version == version_after_edit(self.content_version, self.lines_view(), range, text)
        &&& next.dirty == (self.dirty || edit_changes(self.lines_view(), range, text))
    }

    /// Inserts `s` at `at` (limited to the content) and returns the selection
    /// of the inserted characters.
    pub fn insert_str_at(&mut self, s: String, at: Position) -> (r: Result<Selection, String>)
        requires
            old(self).wf(),
            old(self).content().len() + s@.len() < i32::MAX,
        ensures
            r.is_ok(),
            ({
                let inv = inverse_edit_in(old(self).lines_view(), Range { start: at, end: at }, s@);
                &&& old(self).edit_applied(*final(self), Range { start: at, end: at }, s@, inv)
                &&& r->Ok_0.anchor == inv.0.start
                &&& r->Ok_0.cursor == inv.0.end.offset_spec(Offset { column: -1i32, row: 0i32 })
            }),
    {
        let edit = TextEdit::insert_str_at(s, at);
        match self.apply_edit(&edit) {
            Ok(revedit) => Ok(Selection::from_range(revedit.range)),
            Err(e) => Err(e),
        }
    }

    /// Inserts the character `ch` at `at` (limited to the content).
    pub fn insert_char_at(&mut self, ch: char, at: Position) -> (r: Result<(), String>)
        requires
            old(self).wf(),
            old(self).content().len() + 1 < i32::MAX,
        ensures
            r.is_ok(),
            old(self).edit_applied(
                *final(self),
                Range { start: at, end: at },
                seq![ch],
                inverse_edit_in(old(self).lines_view(), Range { start: at, end: at }, seq![ch]),
            ),
    {
        let edit = TextEdit::insert_char_at(ch, at);
        match self.apply_edit(&edit) {
            Ok(_) => Ok(()),
            Err(e) => Err(e),
        }
    }

    /// Deletes the selected characters.
    pub fn delete_selection(&mut self, selection: &Selection) -> (r: Result<(), String>)
        requires
            old(self).wf(),
            edit_allowed(old(self).lines_view(), selection.to_range_spec(), Seq::<char>::empty()),
        ensures
            r.is_ok(),
            old(self).edit_applied(
                *final(self),
                selection.to_range_spec(),
                Seq::<char>::empty(),
                inverse_edit_in(old(self).lines_view(), selection.to_range_spec(), Seq::<char>::empty()),
            ),
    {
        let edit = TextEdit::delete_selection(selection);
        proof {
            assert(edit.text@ =~= Seq::<char>::empty());
        }
        match self.apply_edit(&edit) {
            Ok(_) => Ok(()),
            Err(e) => Err(e),
        }
    }

    /// Deletes the character at `at`.
    pub fn delete_at(&mut self, at: Position) -> (r: Result<(), String>)
        requires
            old(self).wf(),
            edit_allowed(
                old(self).lines_view(),
                Range { start: at, end: at.offset_spec(Offset { column: 1, row: 0 }) },
                Seq::<char>::empty(),
            ),
        ensures
            r.is_ok(),
            ({
                let range = Range { start: at, end: at.offset_spec(Offset { column: 1, row: 0 }) };
                old(self).edit_applied(
                    *final(self),
                    range,
                    Seq::<char>::empty(),
                    inverse_edit_in(old(self).lines_view(), range, Seq::<char>::empty()),
                )
            }),
    {
        let edit = TextEdit::delete_at(at);
        match self.apply_edit(&edit) {
            Ok(_) => Ok(()),
            Err(e) => Err(e),
        }
    }
}


impl TextBuffer {
    /// Whether the UTF-8 encoded text, a terminator after every line, has a
    /// length that fits in a `usize`.
    pub open spec fn bytes_fit(self) -> bool {
        bytes_before_row(self.lines_view(), self.lines@.len() as int) <= usize::MAX
    }

    /// The byte index, in the UTF-8 encoded text, of a position on a line,
    /// the column at most the line's character count; `None` for other
    /// positions.
    pub fn map_position_to_byte_index(&self, pos: Position) -> (r: Option<usize>)
        requires
            self.wf(),
            self.bytes_fit(),
        ensures
            (0 <= pos.row < self.lines@.len() && 0 <= pos.column <= self.line_len(pos.row as int))
                ==> r == Some(
                (bytes_before_row(self.lines_view(), pos.row as int) + utf8_len(
                    self.lines@[pos.row as int]@.take(pos.column as int),
                )) as usize,
            ),
            !(0 <= pos.row < self.lines@.len() && 0 <= pos.column <= self.line_len(pos.row as int))
                ==> r.is_none(),
    {
        if pos.row < 0 || pos.row as usize >= self.lines.len() {
            return None;
        }
        let row = pos.row as usize;
        let ghost lines = self.lines_view();
        let mut bytes: usize = 0;
        let mut i: usize = 0;
        while i < row
            invariant
                lines == self.lines_view(),
                row < self.lines@.len(),
                i <= row,
                bytes == bytes_before_row(lines, i as int),
                self.bytes_fit(),
            decreases row - i,
        {
            proof {
                lemma_bytes_before_row_mono(lines, i + 1, self.lines@.len() as int);
                assert(lines[i as int] == self.lines@[i as int]@);
                lemma_utf8_len_nonneg(lines[i as int]);
            }
            bytes = bytes + str_utf8_len(self.lines[i].as_str()) + 1;
            i += 1;
        }
        if pos.column < 0 {
            return None;
        }
        let line = self.lines[row].as_str();
        proof {
            lemma_bytes_before_row_mono(lines, row + 1, self.lines@.len() as int);
            assert(lines[row as int] == self.lines@[row as int]@);
            lemma_utf8_len_nonneg(lines[row as int]);
        }
        match char_index_to_byte_index(line, pos.column as usize) {
            Some(b) => {
                proof {
                    lemma_utf8_len_prefix(line@, pos.column as int);
                }
                Some(bytes + b)
            },
            None => None,
        }
    }

    /// The position of byte `idx` of the UTF-8 encoded text: the line whose
    /// bytes, terminator included, hold it, and the character of that line
    /// that the byte belongs to; with `byte_index_end`, the byte before it
    /// (when there is one on the line). `None` past the end of the text.
    pub fn map_byte_index_to_position(&self, idx: usize, byte_index_end: bool) -> (r: Option<Position>)
        requires
            self.wf(),
            self.bytes_fit(),
        ensures
            idx >= bytes_before_row(self.lines_view(), self.lines@.len() as int) <==> r.is_none(),
            r matches Some(p) ==> ({
                let row = p.row as int;
                let lines = self.lines_view();
                let b = idx - bytes_before_row(lines, row);
                &&& 0 <= row < lines.len()
                &&& bytes_before_row(lines, row) <= idx < bytes_before_row(lines, row + 1)
                &&& p.column == char_index_at_byte(
                    lines[row],
                    if byte_index_end && b > 0 {
                        b - 1
                    } else {
                        b
                    },
                )
            }),
    {
        let ghost lines = self.lines_view();
        let mut start: usize = 0;
        let mut row: usize = 0;
        while row < self.lines.len()
            invariant
                lines == self.lines_view(),
                self.wf(),
                self.bytes_fit(),
                row <= self.lines@.len(),
                start == bytes_before_row(lines, row as int),
                start <= idx,
            decreases self.lines@.len() - row,
        {
            proof {
                lemma_bytes_before_row_mono(lines, row + 1, self.lines@.len() as int);
                assert(lines[row as int] == self.lines@[row as int]@);
                lemma_utf8_len_nonneg(lines[row as int]);
            }
            let line = self.lines[row].as_str();
            let end = start + str_utf8_len(line) + 1;
            if end <= idx {
                start = end;
                row += 1;
            } else {
                let mut b = idx - start;
                if byte_index_end && b > 0 {
                    b = b - 1;
                }
                let column = byte_index_to_char_index(line, b);
                proof {
                    lemma_lines_bounded(lines);
                    assert(lines[row as int].len() <= join_lines(lines).len());
                }
                return Some(Position::new(column as Column, row as Row));
            }
        }
        None
    }
}


/// Where moving `position` one character in the direction of the sign of
/// `direction` leads: back past the start of a line to the end of the
/// previous one, forward past the end of a line to the start of the next,
/// `None` before the start or after the end of the text, and the result
/// limited to the content.
pub open spec fn moved_horizontally_in(lines: Seq<Seq<char>>, position: Position, direction: i32) -> Option<Position> {
    let d = signum_spec(direction);
    let target = position.column + d;
    if target < 0 {
        if position.row == 0 {
            None
        } else {
            let prev = sat_add_i32(position.row as int, -1);
            let column = if 0 <= prev < lines.len() { lines[prev as int].len() as int } else { 0 };
            Some(limit_position_in(lines, Position { column: column as i32, row: prev }))
        }
    } else if 0 <= position.row < lines.len() && target > lines[position.row as int].len() {
        if position.row == lines.len() - 1 {
            None
        } else {
            Some(limit_position_in(lines, Position { column: 0, row: sat_add_i32(position.row as int, 1) }))
        }
    } else {
        Some(limit_position_in(lines, position.offset_spec(Offset { column: d, row: 0 })))
    }
}

impl TextBuffer {
    /// The last column of row `row` counted by `selection_char_count` for a
    /// selection from `s` to `e`: the end's column on the end's row, else
    /// the line's character count (its terminator), else, past the lines,
    /// the first column counted on the row.
    pub open spec fn row_stop(self, s: Position, e: Position, row: int) -> int {
        let begin = if row == s.row { s.column as int } else { 0 };
        if row == e.row {
            e.column as int
        } else if 0 <= row < self.lines@.len() {
            self.line_len(row)
        } else {
            begin
        }
    }

    /// The number of characters that row `row` contributes to a selection
    /// from `s` to `e`, the line's terminator included.
    pub open spec fn row_char_span(self, s: Position, e: Position, row: int) -> int {
        let begin = if row == s.row { s.column as int } else { 0 };
        self.row_stop(s, e, row) + 1 - begin
    }

    /// The characters of rows `s.row..=last` of a selection from `s` to `e`.
    pub open spec fn rows_char_count(self, s: Position, e: Position, last: int) -> int
        decreases last + 1 - s.row,
    {
        if last < s.row {
            0
        } else {
            self.rows_char_count(s, e, last - 1) + self.row_char_span(s, e, last)
        }
    }

    /// Whether the character count of a selection can be computed: the
    /// last column of each row is below `i32::MAX`, each row's count is
    /// between 0 and `i32::MAX`, and the sum fits in a `usize`.
    pub open spec fn char_count_defined(self, selection: Selection) -> bool {
        let s = selection.start_spec();
        let e = selection.end_spec();
        &&& forall|row: int|
            s.row <= row <= e.row ==> #[trigger] self.row_stop(s, e, row) < i32::MAX && 0 <= self.row_char_span(
                s,
                e,
                row,
            ) <= i32::MAX
        &&& self.rows_char_count(s, e, e.row as int) <= usize::MAX
    }

    proof fn lemma_rows_char_count_mono(self, s: Position, e: Position, k: int)
        requires
            s.row - 1 <= k <= e.row,
            forall|row: int| s.row <= row <= e.row ==> 0 <= #[trigger] self.row_char_span(s, e, row),
        ensures
            0 <= self.rows_char_count(s, e, k) <= self.rows_char_count(s, e, e.row as int),
        decreases e.row - k,
    {
        if k < e.row {
            self.lemma_rows_char_count_mono(s, e, k + 1);
            self.lemma_rows_char_count_nonneg(s, e, k);
            assert(self.row_char_span(s, e, k + 1) >= 0);
            assert(self.rows_char_count(s, e, k + 1) == self.rows_char_count(s, e, k) + self.row_char_span(
                s,
                e,
                k + 1,
            ));
        } else {
            self.lemma_rows_char_count_nonneg(s, e, k);
        }
    }

    proof fn lemma_rows_char_count_nonneg(self, s: Position, e: Position, k: int)
        requires
            k <= e.row,
            forall|row: int| s.row <= row <= e.row ==> 0 <= #[trigger] self.row_char_span(s, e, row),
        ensures
            0 <= self.rows_char_count(s, e, k),
        decreases k + 1 - s.row,
    {
        if k >= s.row {
            self.lemma_rows_char_count_nonneg(s, e, k - 1);
            assert(self.row_char_span(s, e, k) >= 0);
        }
    }

    /// Number of selected characters: the characters of each row from the
    /// start to the end, both included, a line's terminator counting as one
    /// (see `rows_char_count`).
    pub fn selection_char_count(&self, selection: &Selection) -> (r: usize)
        requires
            self.wf(),
            self.char_count_defined(*selection),
        ensures
            r == self.rows_char_count(selection.start_spec(), selection.end_spec(), selection.end_spec().row as int),
    {
        let s = selection.start();
        let e = selection.end();
        let mut count: usize = 0;
        let mut row: i64 = s.row as i64;
        proof {
            self.lemma_rows_char_count_mono(s, e, s.row - 1);
        }
        while row <= e.row as i64
            invariant
                self.wf(),
                s == selection.start_spec(),
                e == selection.end_spec(),
                self.char_count_defined(*selection),
                s.row <= row <= e.row + 1,
                count == self.rows_char_count(s, e, row - 1),
            decreases e.row + 1 - row,
        {
            let r = row as i32;
            let begin = if r == s.row { s.column } else { 0 };
            let stop = if r == e.row {
                e.column
            } else {
                match self.line_char_count(r) {
                    Some(c) => c,
                    None => begin,
                }
            };
            proof {
                assert(stop == self.row_stop(s, e, r as int));
                assert(self.row_stop(s, e, r as int) < i32::MAX);
                self.lemma_rows_char_count_mono(s, e, r as int);
            }
            let span = (stop + 1 - begin) as usize;
            count = count + span;
            row += 1;
        }
        count
    }

    /// Where moving `position` one character horizontally leads (see
    /// `moved_horizontally_in`).
    pub open spec fn moved_horizontally(self, position: Position, direction: i32) -> Option<Position> {
        moved_horizontally_in(self.lines_view(), position, direction)
    }

    /// Moves `position` one character horizontally (see `moved_horizontally`).
    pub fn move_position_horizontally(&self, position: Position, direction: i32) -> (r: Option<Position>)
        requires
            self.wf(),
        ensures
            r == self.moved_horizontally(position, direction),
    {
        proof {
            lemma_lines_bounded(self.lines_view());
        }
        let offset = Offset::new(signum(direction), 0);
        let target_column = position.column as i64 + offset.column as i64;
        let position = if target_column < 0 {
            if position.row == 0 {
                return None;
            }
            let prev_line_row = saturating_add_i32(position.row, -1);
            let column = match self.line_char_count(prev_line_row) {
                Some(c) => c,
                None => 0,
            };
            Position::new(column, prev_line_row)
        } else {
            let past_end = match self.line_char_count(position.row) {
                Some(end_column) => target_column > end_column as i64,
                None => false,
            };
            if past_end {
                if position.row == self.last_row() {
                    return None;
                }
                Position::new(0, saturating_add_i32(position.row, 1))
            } else {
                position.offset(offset)
            }
        };
        Some(self.limit_position_to_content(position))
    }
}


/// Columns that a character takes on screen: a tab takes the indent size,
/// any other character one.
pub open spec fn char_width(c: char, indent_size: i32) -> int {
    if c == '\t' {
        indent_size as int
    } else {
        1
    }
}

/// Columns that the characters of `s` take on screen.
pub open spec fn text_width(s: Seq<char>, indent_size: i32) -> int
    decreases s.len(),
{
    if s.len() == 0 {
        0
    } else {
        text_width(s.drop_last(), indent_size) + char_width(s.last(), indent_size)
    }
}

/// `s` as displayed: each tab replaced by `indent_size` spaces.
pub open spec fn expand_tabs(s: Seq<char>, indent_size: i32) -> Seq<char>
    decreases s.len(),
{
    if s.len() == 0 {
        Seq::empty()
    } else {
        expand_tabs(s.drop_last(), indent_size) + (if s.last() == '\t' {
            Seq::new(indent_size as nat, |i: int| ' ')
        } else {
            seq![s.last()]
        })
    }
}

/// Number of leading characters of `s` that fit, on screen, within
/// `columns` columns.
pub open spec fn chars_within_width(s: Seq<char>, columns: int, indent_size: i32) -> int
    decreases s.len(),
{
    if s.len() == 0 {
        0
    } else if char_width(s[0], indent_size) <= columns {
        1 + chars_within_width(s.skip(1), columns - char_width(s[0], indent_size), indent_size)
    } else {
        0
    }
}

/// Widths are nonnegative and grow with the text.
pub proof fn lemma_text_width_prefix(s: Seq<char>, i: int, indent_size: i32)
    requires
        0 <= i <= s.len(),
        indent_size >= 0,
    ensures
        0 <= text_width(s.take(i), indent_size) <= text_width(s, indent_size),
    decreases s.len() - i,
{
    if i < s.len() {
        lemma_text_width_prefix(s, i + 1, indent_size);
        lemma_text_width_nonneg(s.take(i), indent_size);
        assert(s.take(i + 1).drop_last() =~= s.take(i));
        assert(s.take(i + 1).last() == s[i]);
        assert(text_width(s.take(i + 1), indent_size) == text_width(s.take(i), indent_size) + char_width(
            s[i],
            indent_size,
        ));
    } else {
        assert(s.take(i) =~= s);
        lemma_text_width_nonneg(s, indent_size);
    }
}

proof fn lemma_text_width_nonneg(s: Seq<char>, indent_size: i32)
    requires
        indent_size >= 0,
    ensures
        text_width(s, indent_size) >= 0,
    decreases s.len(),
{
    if s.len() > 0 {
        lemma_text_width_nonneg(s.drop_last(), indent_size);
    }
}

/// Columns that `ch` takes on screen (see `char_width`).
fn logical_char_char_count(ch: char, config: &EditorConfig) -> (r: i32)
    ensures
        r == char_width(ch, config.indent_size),
{
    if ch == '\t' {
        config.indent_size
    } else {
        1
    }
}

impl TextBuffer {
    /// Line `row` as displayed, tabs expanded (see `expand_tabs`).
    pub fn logical_line(&self, row_index: Row, config: &EditorConfig) -> (r: Option<String>)
        requires
            config.wf(),
        ensures
            (0 <= row_index < self.lines@.len()) ==> r.is_some() && r->Some_0@ == expand_tabs(
                self.lines@[row_index as int]@,
                config.indent_size,
            ),
            !(0 <= row_index < self.lines@.len()) ==> r.is_none(),
    {
        let line = match self.line(row_index) {
            Some(l) => l,
            None => return None,
        };
        let chars = chars_of(line);
        let mut out = String::new();
        let mut i: usize = 0;
        while i < chars.len()
            invariant
                chars@ == line@,
                i <= chars.len(),
                out@ == expand_tabs(chars@.take(i as int), config.indent_size),
                config.wf(),
            decreases chars.len() - i,
        {
            let c = chars[i];
            let ghost before = out@;
            if c == '\t' {
                let mut k: i32 = 0;
                while k < config.indent_size
                    invariant
                        0 <= k <= config.indent_size,
                        out@ == before + Seq::new(k as nat, |j: int| ' '),
                    decreases config.indent_size - k,
                {
                    push_char(&mut out, ' ');
                    k += 1;
                    proof {
                        assert(out@ =~= before + Seq::new(k as nat, |j: int| ' '));
                    }
                }
            } else {
                push_char(&mut out, c);
            }
            proof {
                let t = chars@.take(i + 1);
                assert(t.drop_last() =~= chars@.take(i as int));
                assert(t.last() == c);
                if c != '\t' {
                    assert(out@ =~= before + seq![c]);
                }
            }
            i += 1;
        }
        proof {
            assert(chars@.take(i as int) =~= line@);
        }
        Some(out)
    }

    /// Columns that line `row` takes on screen (see `text_width`).
    pub fn logical_line_char_count(&self, row: Row, config: &EditorConfig) -> (r: Option<i32>)
        requires
            config.wf(),
            0 <= row < self.lines@.len() ==> text_width(self.lines@[row as int]@, config.indent_size)
                <= i32::MAX,
        ensures
            (0 <= row < self.lines@.len()) ==> r == Some(
                text_width(self.lines@[row as int]@, config.indent_size) as i32,
            ),
            !(0 <= row < self.lines@.len()) ==> r.is_none(),
    {
        let line = match self.line(row) {
            Some(l) => l,
            None => return None,
        };
        let chars = chars_of(line);
        let mut count: i32 = 0;
        let mut i: usize = 0;
        while i < chars.len()
            invariant
                chars@ == line@,
                i <= chars.len(),
                count == text_width(chars@.take(i as int), config.indent_size),
                text_width(line@, config.indent_size) <= i32::MAX,
                config.wf(),
            decreases chars.len() - i,
        {
            proof {
                lemma_text_width_prefix(line@, i + 1, config.indent_size);
                let t = chars@.take(i + 1);
                assert(t.drop_last() =~= chars@.take(i as int));
                assert(t.last() == chars@[i as int]);
            }
            count = count + logical_char_char_count(chars[i], config);
            i += 1;
        }
        proof {
            assert(chars@.take(i as int) =~= line@);
        }
        Some(count)
    }

    /// The on-screen column of a position: the width of the characters
    /// before it on its line, the line's terminator counting as one column.
    /// A position on no line is returned as it is.
    pub fn map_true_position_to_logical_position(
        &self,
        position: Position,
        config: &EditorConfig,
    ) -> (r: Position)
        requires
            config.wf(),
            0 <= position.row < self.lines@.len() ==> text_width(
                self.lines@[position.row as int]@.push('\n'),
                config.indent_size,
            ) <= i32::MAX,
        ensures
            (0 <= position.row < self.lines@.len()) ==> ({
                let chars = self.lines@[position.row as int]@.push('\n');
                let n = if 0 <= position.column <= chars.len() { position.column as int } else { chars.len() as int };
                r == (Position { column: text_width(chars.take(n), config.indent_size) as i32, row: position.row })
            }),
            !(0 <= position.row < self.lines@.len()) ==> r == position,
    {
        let line = match self.line(position.row) {
            Some(l) => l,
            None => return position,
        };
        let mut chars = chars_of(line);
        chars.push('\n');
        let ghost all = chars@;
        let n: usize = if position.column >= 0 && position.column as usize <= chars.len() {
            position.column as usize
        } else {
            chars.len()
        };
        let mut column: i32 = 0;
        let mut i: usize = 0;
        while i < n
            invariant
                chars@ == all,
                n <= chars.len(),
                i <= n,
                column == text_width(all.take(i as int), config.indent_size),
                text_width(all, config.indent_size) <= i32::MAX,
                config.wf(),
            decreases n - i,
        {
            proof {
                lemma_text_width_prefix(all, i + 1, config.indent_size);
                let t = all.take(i + 1);
                assert(t.drop_last() =~= all.take(i as int));
                assert(t.last() == all[i as int]);
            }
            column = column + logical_char_char_count(chars[i], config);
            i += 1;
        }
        position.with_column(column)
    }

    /// The position of the character at an on-screen column: the number of
    /// leading characters of the line that fit within the column (see
    /// `chars_within_width`). A position on no line is returned as it is.
    pub fn map_logical_position_to_true_position(
        &self,
        logpos: Position,
        config: &EditorConfig,
    ) -> (r: Position)
        requires
            self.wf(),
            config.wf(),
        ensures
            (0 <= logpos.row < self.lines@.len()) ==> r == (Position {
                column: chars_within_width(self.lines@[logpos.row as int]@, logpos.column as int, config.indent_size)
                    as i32,
                row: logpos.row,
            }),
            !(0 <= logpos.row < self.lines@.len()) ==> r == logpos,
    {
        let line = match self.line(logpos.row) {
            Some(l) => l,
            None => return logpos,
        };
        let chars = chars_of(line);
        proof {
            lemma_lines_bounded(self.lines_view());
            assert(self.lines_view()[logpos.row as int] == line@);
            assert(line@.skip(0) =~= line@);
            lemma_chars_within_width_bounds(line@, logpos.column as int, config.indent_size);
        }
        let mut left: i64 = logpos.column as i64;
        let mut count: usize = 0;
        while count < chars.len() && (logical_char_char_count(chars[count], config) as i64) <= left
            invariant
                chars@ == line@,
                count <= chars.len(),
                config.wf(),
                chars_within_width(line@, logpos.column as int, config.indent_size) == count
                    + chars_within_width(line@.skip(count as int), left as int, config.indent_size),
                logpos.column - 256 * count <= left <= logpos.column,
            decreases chars.len() - count,
        {
            let w = logical_char_char_count(chars[count], config);
            proof {
                let rest = line@.skip(count as int);
                assert(rest[0] == chars@[count as int]);
                assert(rest.skip(1) =~= line@.skip(count + 1));
            }
            left = left - w as i64;
            count += 1;
        }
        proof {
            if count == chars.len() {
                assert(line@.skip(count as int) =~= Seq::<char>::empty());
            } else {
                let rest = line@.skip(count as int);
                assert(rest[0] == chars@[count as int]);
            }
            lemma_chars_within_width_bounds(line@, logpos.column as int, config.indent_size);
        }
        logpos.with_column(count as i32)
    }

    /// Moves an on-screen position one line in the direction of the sign of
    /// `direction`, its column limited to the width of the new line; `None`
    /// above the first or below the last line.
    pub fn move_logical_position_vertically(
        &self,
        logpos: Position,
        direction: i32,
        config: &EditorConfig,
    ) -> (r: Option<Position>)
        requires
            self.wf(),
            config.wf(),
            forall|row: int|
                0 <= row < self.lines@.len() ==> text_width(#[trigger] self.lines@[row]@, config.indent_size)
                    <= i32::MAX,
        ensures
            ({
                let moved = logpos.offset_spec(Offset { column: 0, row: signum_spec(direction) });
                if moved.row < 0 || moved.row > self.lines@.len() - 1 {
                    r.is_none()
                } else {
                    r == Some(
                        Position {
                            column: clamp_spec(
                                moved.column as int,
                                0,
                                text_width(self.lines@[moved.row as int]@, config.indent_size),
                            ) as i32,
                            row: moved.row,
                        },
                    )
                }
            }),
    {
        let moved = logpos.offset(Offset::new(0, signum(direction)));
        if moved.row < 0 || moved.row > self.last_row() {
            return None;
        }
        let width = match self.logical_line_char_count(moved.row, config) {
            Some(w) => w,
            None => 0,
        };
        proof {
            lemma_text_width_nonneg(self.lines@[moved.row as int]@, config.indent_size);
        }
        let column = clamp_i32(moved.column, 0, width);
        Some(Position::new(column, moved.row))
    }
}

/// `chars_within_width` counts characters of `s`.
pub proof fn lemma_chars_within_width_bounds(s: Seq<char>, columns: int, indent_size: i32)
    ensures
        0 <= chars_within_width(s, columns, indent_size) <= s.len(),
    decreases s.len(),
{
    if s.len() > 0 {
        lemma_chars_within_width_bounds(s.skip(1), columns - char_width(s[0], indent_size), indent_size);
    }
}

} // verus!
