//! The history and register commands, and what the symbol-completion
//! commands read around the cursor.

use vstd::prelude::*;

use crate::commands::{find_last_span_around, last_span_around};
use crate::pattern::{
    opt_spans_view, regex_compiles_of, regex_find_iter, regex_find_iter_of, regex_group_spans,
    regex_group_spans_of,
};
use crate::position::Position;
use crate::range::Range;
use crate::command::{lemma_queue_has_scope, CommandQueue};
use crate::commands::editor::{edit_events_queued, emit_edit_events, path_text};
use crate::selection::Selection;
use crate::state::edit_model::{redo_allowed, undo_allowed};
use crate::state::register::Register;
use crate::state::text_buffer::TextBuffer;
use crate::text::{
    decimal_string, decimal_text, push_str, to_owned_string,
    byte_index_to_char_index, char_index_at_byte, char_index_to_byte_index, lemma_utf8_len_prefix, str_byte_len, utf8_len,
};

verus! {

/// A symbol: a word character followed by word characters, `!` or `-`.
pub const RE_SYMBOL: &'static str = "\\w[\\w!\\-]*";

/// A separator (`.`, `::` or `,`) and the white space after it.
pub const RE_SEPARATOR: &'static str = "(\\.|::|,)(\\s*)";

/// The byte offset of column `column` in `line`.
pub open spec fn byte_of_column(line: Seq<char>, column: int) -> int {
    utf8_len(line.take(column))
}

/// The range from the start of the symbol that the cursor ends, on line
/// `line` of row `row`, to the cursor; the empty range at the cursor when
/// the cursor ends no symbol. Its end column is the cursor's byte offset in
/// the line.
pub open spec fn prefix_symbol_range_spec(line: Seq<char>, cursor: Position) -> Range {
    let b = byte_of_column(line, cursor.column as int);
    let span = if regex_compiles_of(RE_SYMBOL@) {
        last_span_around(regex_find_iter_of(RE_SYMBOL@, line), b)
    } else {
        None
    };
    match span {
        Some((s, _)) => Range {
            start: Position { column: char_index_at_byte(line, s) as i32, row: cursor.row },
            end: Position { column: b as i32, row: cursor.row },
        },
        None => Range { start: cursor, end: cursor },
    }
}

/// The range of the part of the symbol under the cursor that precedes it
/// (see `prefix_symbol_range_spec`).
pub fn get_prefix_symbol_range(buffer: &TextBuffer, cursor: Position) -> (r: Range)
    requires
        0 <= cursor.row < buffer.lines@.len(),
        0 <= cursor.column <= buffer.lines@[cursor.row as int]@.len(),
    ensures
        r == prefix_symbol_range_spec(buffer.lines@[cursor.row as int]@, cursor),
{
    let row = cursor.row;
    let line = match buffer.line(row) {
        Some(l) => l,
        None => {
            return Range { start: cursor, end: cursor };
        },
    };
    let _ = str_byte_len(line);
    proof {
        lemma_utf8_len_prefix(line@, cursor.column as int);
    }
    let cursor_byte_idx = match char_index_to_byte_index(line, cursor.column as usize) {
        Some(b) => b,
        None => {
            return Range { start: cursor, end: cursor };
        },
    };
    let matches = match regex_find_iter(RE_SYMBOL, line) {
        Ok(m) => m,
        Err(()) => {
            return Range { start: cursor, end: cursor };
        },
    };
    match find_last_span_around(&matches, cursor_byte_idx) {
        Some((s, _)) => {
            let start_column = byte_index_to_char_index(line, s) as i32;
            let end_column = cursor_byte_idx as i32;
            Range {
                start: Position { column: start_column, row },
                end: Position { column: end_column, row },
            }
        },
        None => Range { start: cursor, end: cursor },
    }
}

/// Whether `span` is present and spans byte `b`.
pub open spec fn span_holds(span: Option<(int, int)>, b: int) -> bool {
    span matches Some(p) && p.0 <= b && p.1 >= b
}

/// Whether some separator's white space spans byte `b`.
pub open spec fn follows_separator_spec(spans: Seq<Option<(int, int)>>, b: int) -> bool {
    exists|i: int| 0 <= i < spans.len() && #[trigger] span_holds(spans[i], b)
}

/// Whether the cursor is within the white space after a separator (`.`,
/// `::` or `,`), or just after the separator.
pub fn position_follows_a_separator(buffer: &TextBuffer, cursor: Position) -> (r: bool)
    requires
        0 <= cursor.row < buffer.lines@.len(),
        0 <= cursor.column <= buffer.lines@[cursor.row as int]@.len(),
    ensures
        r == (regex_compiles_of(RE_SEPARATOR@) && follows_separator_spec(
            regex_group_spans_of(RE_SEPARATOR@, buffer.lines@[cursor.row as int]@, 2),
            byte_of_column(buffer.lines@[cursor.row as int]@, cursor.column as int),
        )),
{
    let row = cursor.row;
    let line = match buffer.line(row) {
        Some(l) => l,
        None => {
            return false;
        },
    };
    let _ = str_byte_len(line);
    proof {
        lemma_utf8_len_prefix(line@, cursor.column as int);
    }
    let cursor_byte_idx = match char_index_to_byte_index(line, cursor.column as usize) {
        Some(b) => b,
        None => {
            return false;
        },
    };
    let groups = match regex_group_spans(RE_SEPARATOR, line, 2) {
        Ok(g) => g,
        Err(()) => {
            return false;
        },
    };
    let ghost gv = opt_spans_view(groups@);
    let mut i: usize = 0;
    while i < groups.len()
        invariant
            gv == opt_spans_view(groups@),
            gv == regex_group_spans_of(RE_SEPARATOR@, buffer.lines@[cursor.row as int]@, 2),
            regex_compiles_of(RE_SEPARATOR@),
            line@ == buffer.lines@[cursor.row as int]@,
            cursor_byte_idx as int == byte_of_column(line@, cursor.column as int),
            i <= groups@.len(),
            forall|j: int|
                0 <= j < i ==> !#[trigger] span_holds(gv[j], cursor_byte_idx as int),
        decreases groups@.len() - i,
    {
        match groups[i] {
            Some((s, e)) => {
                if s <= cursor_byte_idx && e >= cursor_byte_idx {
                    proof {
                        assert(gv[i as int] == Some((s as int, e as int)));
                        assert(span_holds(gv[i as int], cursor_byte_idx as int));
                        assert(cursor_byte_idx as int == byte_of_column(line@, cursor.column as int));
                        assert(follows_separator_spec(gv, byte_of_column(line@, cursor.column as int)));
                    }
                    return true;
                }
            },
            None => {},
        }
        proof {
            match groups@[i as int] {
                Some(q) => {
                    assert(gv[i as int] == Some((q.0 as int, q.1 as int)));
                },
                None => {
                    assert(gv[i as int].is_none());
                },
            }
        }
        i += 1;
    }
    false
}

/// The queue after `command` was queued in the current scope.
pub open spec fn command_queued(before: CommandQueue, after: CommandQueue, command: Seq<char>) -> bool {
    &&& after.wf()
    &&& after.commands() == before.commands().insert(before.scopes().last() as int, command)
    &&& after.scopes() == before.scopes().update(before.scopes().len() - 1, (before.scopes().last() + 1) as u32)
    &&& after.log() == before.log()
}

/// `undo`: undoes the current group of edits of `buffer` (see
/// `TextBuffer::undo`) and emits `buffer-modified` and
/// `selections-modified`; when there is nothing to undo, queues the message
/// `message  nothing to undo` instead.
pub fn undo(buffer: &mut TextBuffer, queue: &mut CommandQueue) -> (r: Result<(), String>)
    requires
        old(buffer).wf(),
        old(buffer).history.current_group_edge_idx > 0 ==> undo_allowed(
            old(buffer).lines_view(),
            old(buffer).history.group_edits(old(buffer).history.current_group_edge_idx - 1),
        ),
        old(queue).wf(),
        old(queue).scopes().last() + 2 <= u32::MAX,
    ensures
        r is Ok,
        final(buffer).wf(),
        old(buffer).history.current_group_edge_idx == 0 ==> *final(buffer) == *old(buffer) && command_queued(
            *old(queue),
            *final(queue),
            "message  nothing to undo"@,
        ),
        old(buffer).history.current_group_edge_idx > 0 ==> old(buffer).undone(*final(buffer)) && edit_events_queued(
            *old(queue),
            *final(queue),
            path_text(*old(buffer)),
        ),
{
    let undid = match buffer.undo() {
        Ok(b) => b,
        Err(e) => {
            return Err(e);
        },
    };
    if !undid {
        proof {
            lemma_queue_has_scope(*queue);
        }
        queue.push(to_owned_string("message  nothing to undo"));
    } else {
        emit_edit_events(queue, buffer.path_str());
    }
    Ok(())
}

/// `redo`: redoes the next group of edits of `buffer` (see
/// `TextBuffer::redo`) and emits `buffer-modified` and
/// `selections-modified`; when there is nothing to redo, queues the message
/// `message  nothing to redo` instead.
pub fn redo(buffer: &mut TextBuffer, queue: &mut CommandQueue) -> (r: Result<(), String>)
    requires
        old(buffer).wf(),
        old(buffer).history.current_group_edge_idx < old(buffer).history.edit_groups@.len() ==> redo_allowed(
            old(buffer).lines_view(),
            old(buffer).history.group_edits(old(buffer).history.current_group_edge_idx as int),
        ),
        old(queue).wf(),
        old(queue).scopes().last() + 2 <= u32::MAX,
    ensures
        r is Ok,
        final(buffer).wf(),
        old(buffer).history.current_group_edge_idx == old(buffer).history.edit_groups@.len() ==> *final(buffer)
            == *old(buffer) && command_queued(*old(queue), *final(queue), "message  nothing to redo"@),
        old(buffer).history.current_group_edge_idx < old(buffer).history.edit_groups@.len() ==> old(
            buffer,
        ).redone(*final(buffer)) && edit_events_queued(*old(queue), *final(queue), path_text(*old(buffer))),
{
    let redid = match buffer.redo() {
        Ok(b) => b,
        Err(e) => {
            return Err(e);
        },
    };
    if !redid {
        proof {
            lemma_queue_has_scope(*queue);
        }
        queue.push(to_owned_string("message  nothing to redo"));
    } else {
        emit_edit_events(queue, buffer.path_str());
    }
    Ok(())
}

/// The message that `yank` shows for `n` selections.
pub open spec fn yank_message(n: nat) -> Seq<char> {
    "message yanked "@ + decimal_text(n) + " selection"@ + (if n != 1 { "s"@ } else { ""@ })
}

/// `yank`: puts the text of the primary selection of `view` in the register,
/// and the texts of the others, in order, as its further content; then
/// queues a message that tells how many selections were yanked.
pub fn yank(buffer: &TextBuffer, view: u64, register: &mut Register, queue: &mut CommandQueue)
    requires
        buffer.wf(),
        buffer.selections.view_spec().contains_key(view),
        old(queue).wf(),
        old(queue).scopes().last() < u32::MAX,
    ensures
        ({
            let sels = buffer.selections.view_spec()[view];
            &&& final(register).content@ == buffer.selection_text_spec(sels[0])
            &&& final(register).extra_content@.len() == sels.len() - 1
            &&& forall|i: int|
                0 <= i < sels.len() - 1 ==> (#[trigger] final(register).extra_content@[i])@
                    == buffer.selection_text_spec(sels[i + 1])
            &&& command_queued(*old(queue), *final(queue), yank_message(sels.len()))
        }),
{
    let all = match buffer.view_selections(view) {
        Some(sels) => sels.all(),
        None => Vec::new(),
    };
    let ghost sels = buffer.selections.view_spec()[view];
    let content = match buffer.selection_text(&all[0]) {
        Some(t) => t,
        None => String::new(),
    };
    register.content = content;
    let mut extra: Vec<String> = Vec::new();
    let mut i: usize = 1;
    while i < all.len()
        invariant
            all@ == sels,
            buffer.wf(),
            1 <= i <= all.len(),
            extra@.len() == i - 1,
            forall|j: int| 0 <= j < i - 1 ==> (#[trigger] extra@[j])@ == buffer.selection_text_spec(sels[j + 1]),
        decreases all.len() - i,
    {
        let t = match buffer.selection_text(&all[i]) {
            Some(t) => t,
            None => String::new(),
        };
        extra.push(t);
        i += 1;
    }
    register.extra_content = extra;
    let sel_count = all.len();
    let mut message = to_owned_string("message yanked ");
    let digits = decimal_string(sel_count as u64);
    push_str(&mut message, digits.as_str());
    push_str(&mut message, " selection");
    if sel_count != 1 {
        push_str(&mut message, "s");
    }
    proof {
        reveal_strlit("message yanked ");
        reveal_strlit(" selection");
        reveal_strlit("s");
        reveal_strlit("");
        assert(message@ =~= yank_message(sels.len()));
        lemma_queue_has_scope(*queue);
    }
    queue.push(message);
}

} // verus!
