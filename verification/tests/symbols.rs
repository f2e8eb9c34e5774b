use ayed::commands::completions::selection_from_symbol_prefix_under_cursor;
use ayed::commands::misc::{get_prefix_symbol_range, position_follows_a_separator};
use ayed::position::Position;
use ayed::state::text_buffer::TextBuffer;

fn pos(column: i32, row: i32) -> Position {
    Position::new(column, row)
}

#[test]
fn prefix_symbol_range_ends_at_the_cursor() {
    let b = TextBuffer::new_with_content("\nlet foo_bar = x.y", None);
    let r = get_prefix_symbol_range(&b, pos(8, 1));
    assert_eq!((r.start, r.end), (pos(4, 1), pos(8, 1)));
    let r = get_prefix_symbol_range(&b, pos(3, 1));
    assert_eq!((r.start, r.end), (pos(0, 1), pos(3, 1)));
    // At the start of a symbol, none precedes the cursor.
    let r = get_prefix_symbol_range(&b, pos(4, 1));
    assert_eq!((r.start, r.end), (pos(4, 1), pos(4, 1)));
}

#[test]
fn separators_are_followed_by_their_white_space() {
    let b = TextBuffer::new_with_content("x.y,  z", None);
    assert!(!position_follows_a_separator(&b, pos(0, 0)));
    assert!(position_follows_a_separator(&b, pos(2, 0)));
    assert!(!position_follows_a_separator(&b, pos(3, 0)));
    assert!(position_follows_a_separator(&b, pos(4, 0)));
    assert!(position_follows_a_separator(&b, pos(6, 0)));
    assert!(!position_follows_a_separator(&b, pos(7, 0)));
}

#[test]
fn completion_selection_covers_the_symbol_prefix() {
    let b = TextBuffer::new_with_content("a.bc", None);
    let s = selection_from_symbol_prefix_under_cursor(&b, pos(4, 0));
    assert_eq!((s.anchor, s.cursor), (pos(2, 0), pos(4, 0)));
    let s = selection_from_symbol_prefix_under_cursor(&b, pos(2, 0));
    assert_eq!((s.anchor, s.cursor), (pos(1, 0), pos(2, 0)));
    let s = selection_from_symbol_prefix_under_cursor(&b, pos(0, 0));
    assert_eq!((s.anchor, s.cursor), (pos(0, 0), pos(0, 0)));
}
