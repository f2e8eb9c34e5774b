use ayed::position::Position;
use ayed::range::Range;
use ayed::selection::{Selection, Selections};
use ayed::state::text_buffer::{TextBuffer, TextEdit};

fn pos(column: i32, row: i32) -> Position {
    Position::new(column, row)
}

#[test]
fn buffer_splits_content_into_lines() {
    let b = TextBuffer::new_with_content("ab\ncd\n", None);
    assert_eq!(b.line_count(), 3);
    assert_eq!(b.line(0), Some("ab"));
    assert_eq!(b.line(2), Some(""));
    assert_eq!(b.line(3), None);
    assert_eq!(b.content_to_string(), "ab\ncd\n");
    assert!(!b.is_dirty());
}

#[test]
fn insert_then_undo_restores_text() {
    let mut b = TextBuffer::new_with_content("ab\ncd", None);
    let sel = b.insert_str_at("X\nY".to_string(), pos(1, 0)).unwrap();
    assert_eq!(b.content_to_string(), "aX\nYb\ncd");
    assert_eq!(sel.anchor, pos(1, 0));
    assert_eq!(sel.cursor, pos(0, 1));
    assert!(b.is_dirty());
    b.checkpoint();
    assert_eq!(b.undo(), Ok(true));
    assert_eq!(b.content_to_string(), "ab\ncd");
    assert_eq!(b.undo(), Ok(false));
}

#[test]
fn undo_then_redo_gives_the_edit_back() {
    let mut b = TextBuffer::new_with_content("hello", None);
    b.insert_str_at(" world".to_string(), pos(5, 0)).unwrap();
    b.checkpoint();
    b.undo().unwrap();
    assert_eq!(b.content_to_string(), "hello");
    assert_eq!(b.redo(), Ok(true));
    assert_eq!(b.content_to_string(), "hello world");
    assert_eq!(b.redo(), Ok(false));
}

#[test]
fn delete_selection_then_undo() {
    let mut b = TextBuffer::new_with_content("one\ntwo\nthree", None);
    let sel = Selection::new().with_anchor(pos(1, 0)).with_cursor(pos(1, 1));
    b.delete_selection(&sel).unwrap();
    // The selection holds the character under its cursor.
    assert_eq!(b.content_to_string(), "oo\nthree");
    b.checkpoint();
    b.undo().unwrap();
    assert_eq!(b.content_to_string(), "one\ntwo\nthree");
}

#[test]
fn insert_char_and_delete_at() {
    let mut b = TextBuffer::new_with_content("ac", None);
    b.insert_char_at('b', pos(1, 0)).unwrap();
    assert_eq!(b.content_to_string(), "abc");
    b.delete_at(pos(0, 0)).unwrap();
    assert_eq!(b.content_to_string(), "bc");
}

#[test]
fn positions_are_limited_to_the_content() {
    let b = TextBuffer::new_with_content("ab\ncde", None);
    assert_eq!(b.limit_position_to_content(pos(10, 0)), pos(2, 0));
    assert_eq!(b.limit_position_to_content(pos(1, 9)), pos(1, 1));
    assert_eq!(b.end_position(), pos(3, 1));
    assert_eq!(b.line_char_count(1), Some(3));
}

#[test]
fn selections_move_with_an_insertion() {
    let mut b = TextBuffer::new_with_content("abc", None);
    let mut sels = Selections::new();
    sels.primary_selection = Selection::new().with_anchor(pos(2, 0)).with_cursor(pos(2, 0));
    b.add_view_selections(7, sels);
    b.insert_str_at("XY".to_string(), pos(1, 0)).unwrap();
    assert_eq!(b.view_selections(7).unwrap().primary().cursor, pos(4, 0));
}

#[test]
fn range_text_spans_lines() {
    let b = TextBuffer::new_with_content("ab\ncd", None);
    assert_eq!(b.range_text(Range::from_positions(pos(1, 0), pos(0, 1))), Ok("b\nc".to_string()));
}

#[test]
fn redo_after_undo_gives_the_deletion_back() {
    let mut b = TextBuffer::new_with_content("ab\ncd\nef", None);
    let sel = Selection::new().with_anchor(pos(1, 0)).with_cursor(pos(0, 1));
    b.delete_selection(&sel).unwrap();
    assert_eq!(b.content_to_string(), "ad\nef");
    b.checkpoint();
    b.undo().unwrap();
    assert_eq!(b.content_to_string(), "ab\ncd\nef");
    assert_eq!(b.redo(), Ok(true));
    assert_eq!(b.content_to_string(), "ad\nef");
}

#[test]
fn inserted_text_reads_back() {
    let mut b = TextBuffer::new_with_content("ab", None);
    let sel = b.insert_str_at("x\nyz".to_string(), pos(1, 0)).unwrap();
    assert_eq!(b.selection_text(&sel), Some("x\nyz".to_string()));
}

#[test]
fn apply_edit_replaces_the_range_and_returns_its_inverse() {
    let mut b = TextBuffer::new_with_content("hello", None);
    let v0 = b.content_version();
    let edit = TextEdit { range: Range { start: pos(1, 0), end: pos(3, 0) }, text: "X".to_string() };
    let inverse = b.apply_edit(&edit).unwrap();
    assert_eq!(b.content_to_string(), "hXlo");
    assert!(b.is_dirty());
    assert_eq!(b.content_version(), v0 + 2);
    assert_eq!(inverse.text, "el");
    assert_eq!(inverse.range, Range { start: pos(1, 0), end: pos(2, 0) });
    b.apply_edit(&inverse).unwrap();
    assert_eq!(b.content_to_string(), "hello");
}

#[test]
fn apply_edit_of_an_insertion_bumps_the_version_once() {
    let mut b = TextBuffer::new_with_content("ab", None);
    let v0 = b.content_version();
    let edit = TextEdit { range: Range { start: pos(1, 0), end: pos(1, 0) }, text: "X\nY".to_string() };
    let inverse = b.apply_edit(&edit).unwrap();
    assert_eq!(b.line(0), Some("aX"));
    assert_eq!(b.line(1), Some("Yb"));
    assert_eq!(inverse.range, Range { start: pos(1, 0), end: pos(1, 1) });
    assert_eq!(inverse.text, "");
    assert!(b.is_dirty());
    assert_eq!(b.content_version(), v0 + 1);
}

#[test]
fn delete_at_a_line_end_joins_the_lines() {
    let mut b = TextBuffer::new_with_content("ab\ncd", None);
    assert_eq!(b.delete_at(pos(2, 0)), Ok(()));
    assert_eq!(b.content_to_string(), "abcd");
    assert!(b.is_dirty());
}

#[test]
fn quit_is_refused_with_unsaved_changes() {
    use_resources_for_quit();
}

fn use_resources_for_quit() {
    let mut r = ayed::state::resources::Resources::new();
    assert_eq!(r.check_quit(), Ok(()));
    let buffer = r.open_scratch();
    r.views.insert(ayed::state::view::View { top_left: pos(0, 0), buffer });
    assert_eq!(r.check_quit(), Ok(()));
    r.buffers.get_mut(buffer).unwrap().insert_char_at('x', pos(0, 0)).unwrap();
    assert_eq!(r.check_quit(), Err("there are unsaved changes".to_string()));
}

#[test]
fn byte_index_and_position_map_back() {
    let b = TextBuffer::new_with_content("aé\nxyz", None);
    for (column, row) in [(0, 0), (1, 0), (0, 1), (2, 1)] {
        let p = pos(column, row);
        let i = b.map_position_to_byte_index(p).unwrap();
        assert_eq!(b.map_byte_index_to_position(i, false), Some(p));
    }
    assert_eq!(b.map_position_to_byte_index(pos(0, 1)), Some(4));
}

#[test]
fn undo_of_an_insertion_restores_lines_and_selections_then_redo() {
    let mut b = TextBuffer::new_with_content("ab\ncd", None);
    b.add_view_selections(3, Selections { primary_selection: Selection::new().with_cursor(pos(1, 1)).with_anchor(pos(1, 1)), extra_selections: vec![] });
    b.insert_str_at("X\nY".to_string(), pos(1, 0)).unwrap();
    let after = b.content_to_string();
    b.checkpoint();
    assert_eq!(b.undo(), Ok(true));
    assert_eq!(b.content_to_string(), "ab\ncd");
    assert_eq!(b.view_selections(3).unwrap().primary().cursor, pos(1, 1));
    assert_eq!(b.redo(), Ok(true));
    assert_eq!(b.content_to_string(), after);
    assert_eq!(b.redo(), Ok(false));
}

#[test]
fn deleting_up_to_a_line_start_reads_one_character_past_it_as_the_deleted_text() {
    // The deleted text is read up to the column before the range's end; at a
    // line's start that column is limited back to the line's first character.
    let mut b = TextBuffer::new_with_content("ab\ncd", None);
    let edit = TextEdit { range: Range { start: pos(2, 0), end: pos(0, 1) }, text: String::new() };
    let inverse = b.apply_edit(&edit).unwrap();
    assert_eq!(b.content_to_string(), "abcd");
    assert_eq!(inverse.text, "\nc");
}

#[test]
fn edits_raise_the_content_version_only_when_they_change_the_text() {
    let mut b = TextBuffer::new_with_content("ab", None);
    let v0 = b.content_version();
    let nothing = TextEdit { range: Range { start: pos(1, 0), end: pos(1, 0) }, text: String::new() };
    b.apply_edit(&nothing).unwrap();
    assert_eq!(b.content_version(), v0);
    let insert = TextEdit { range: Range { start: pos(1, 0), end: pos(1, 0) }, text: "x".to_string() };
    b.apply_edit(&insert).unwrap();
    assert_eq!(b.content_version(), v0 + 1);
}
