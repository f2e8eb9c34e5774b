use ayed::command::options::Options;
use ayed::command::{CommandQueue, CommandRegistry};
use ayed::commands::editor::{
    delete, delete_around, finish_selection_movement, format_set, indent, insert_char, insert_str, look, look_set_top,
    move_to_char, replace, selections_dismiss_extras, selections_flip, selections_shrink, unescaped_newlines,
};
use ayed::commands::misc::{redo, undo, yank};
use ayed::commands::state::{auto_indent_shim, pending_command_run, state_set, state_set_part2, wq};
use ayed::config::Config;
use ayed::state::register::Register;
use ayed::text::{decimal_string, parse_i32};
use ayed::position::Position;
use ayed::selection::{Selection, Selections};
use ayed::slotmap::Handle;
use ayed::state::text_buffer::TextBuffer;
use ayed::state::view::View;

const VIEW: u64 = 7;

fn pos(column: i32, row: i32) -> Position {
    Position::new(column, row)
}

fn sel(anchor: Position, cursor: Position) -> Selection {
    Selection::new().with_anchor(anchor).with_cursor(cursor)
}

fn buffer_with(content: &str, path: Option<&str>, sels: Vec<Selection>) -> TextBuffer {
    let mut b = TextBuffer::new_with_content(content, path.map(|p| p.to_string()));
    let mut sels = sels;
    let primary = sels.remove(0);
    b.add_view_selections(VIEW, Selections { primary_selection: primary, extra_selections: sels });
    b
}

fn cursors(b: &TextBuffer) -> Vec<Position> {
    b.view_selections(VIEW).unwrap().all().iter().map(|s| s.cursor).collect()
}

fn drain(queue: &mut CommandQueue) -> Vec<String> {
    let mut out = Vec::new();
    while let Some(c) = queue.pop() {
        out.push(c);
    }
    out
}

#[test]
fn insert_char_inserts_at_every_cursor_and_emits_events() {
    let mut b = buffer_with("abc\ndef", Some("/tmp/f.txt"), vec![sel(pos(1, 0), pos(1, 0)), sel(pos(0, 1), pos(0, 1))]);
    let mut q = CommandQueue::new();
    assert_eq!(insert_char("X", &mut b, VIEW, &mut q), Ok(()));
    assert_eq!(b.content_to_string(), "aXbc\nXdef");
    assert_eq!(cursors(&b), vec![pos(2, 0), pos(1, 1)]);
    assert_eq!(drain(&mut q), vec!["buffer-modified /tmp/f.txt".to_string(), "selections-modified ".to_string()]);
}

#[test]
fn insert_char_of_escaped_newline_splits_the_line() {
    let mut b = buffer_with("abc", None, vec![sel(pos(1, 0), pos(1, 0))]);
    let mut q = CommandQueue::new();
    assert_eq!(insert_char("\\n", &mut b, VIEW, &mut q), Ok(()));
    assert_eq!(b.content_to_string(), "a\nbc");
    assert_eq!(cursors(&b), vec![pos(0, 1)]);
}

#[test]
fn insert_char_without_argument_fails_and_changes_nothing() {
    let mut b = buffer_with("abc", None, vec![sel(pos(1, 0), pos(1, 0))]);
    let mut q = CommandQueue::new();
    assert_eq!(insert_char("", &mut b, VIEW, &mut q), Err("not a char: ".to_string()));
    assert_eq!(b.content_to_string(), "abc");
    assert!(q.is_empty());
}

#[test]
fn insert_str_replaces_escaped_newlines() {
    let mut b = buffer_with("ab", None, vec![sel(pos(1, 0), pos(1, 0))]);
    let mut q = CommandQueue::new();
    assert_eq!(insert_str("x\\ny", &mut b, VIEW, &mut q), Ok(()));
    assert_eq!(b.content_to_string(), "ax\nyb");
    assert_eq!(unescaped_newlines("1\\n2\\n\\"), "1\n2\n\\");
    assert_eq!(unescaped_newlines("\\\\n"), "\\\n");
}

#[test]
fn delete_removes_each_selection_from_the_last() {
    let mut b = buffer_with("abcdef", None, vec![sel(pos(1, 0), pos(2, 0)), sel(pos(4, 0), pos(4, 0))]);
    let mut q = CommandQueue::new();
    assert_eq!(delete(&mut b, VIEW, &mut q), Ok(()));
    assert_eq!(b.content_to_string(), "adf");
    assert_eq!(drain(&mut q).len(), 2);
}

#[test]
fn delete_of_a_selection_past_its_line_fails() {
    let mut b = buffer_with("ab\ncd", None, vec![sel(pos(3, 0), pos(0, 1))]);
    let mut q = CommandQueue::new();
    assert_eq!(delete(&mut b, VIEW, &mut q), Err("selection lies outside of the buffer's content".to_string()));
    assert_eq!(b.content_to_string(), "ab\ncd");
    assert!(q.is_empty());
}

#[test]
fn delete_around_removes_both_neighbours_by_default() {
    let mut b = buffer_with("abc", None, vec![sel(pos(1, 0), pos(1, 0))]);
    let mut q = CommandQueue::new();
    let opts = Options::new().flag("c").flag("p").flag("n").parse("").unwrap();
    assert_eq!(delete_around(&opts, &mut b, VIEW, &mut q), Ok(()));
    assert_eq!(b.content_to_string(), "b");
}

#[test]
fn delete_around_with_previous_only() {
    let mut b = buffer_with("abc", None, vec![sel(pos(1, 0), pos(1, 0))]);
    let mut q = CommandQueue::new();
    let opts = Options::new().flag("c").flag("p").flag("n").parse("--p").unwrap();
    assert_eq!(delete_around(&opts, &mut b, VIEW, &mut q), Ok(()));
    assert_eq!(b.content_to_string(), "bc");
}

#[test]
fn delete_around_at_the_end_of_the_text_deletes_nothing() {
    let mut b = buffer_with("abc", None, vec![sel(pos(3, 0), pos(3, 0))]);
    let mut q = CommandQueue::new();
    let opts = Options::new().flag("c").flag("p").flag("n").parse("").unwrap();
    assert_eq!(delete_around(&opts, &mut b, VIEW, &mut q), Ok(()));
    assert_eq!(b.content_to_string(), "abc");
}

#[test]
fn replace_puts_the_character_over_each_selection() {
    let mut b = buffer_with("abcdef", None, vec![sel(pos(1, 0), pos(2, 0)), sel(pos(4, 0), pos(4, 0))]);
    let mut q = CommandQueue::new();
    assert_eq!(replace("Z", &mut b, VIEW, &mut q), Ok(()));
    assert_eq!(b.content_to_string(), "aZdZf");
    assert_eq!(replace("", &mut b, VIEW, &mut q), Err("missing replacement char".to_string()));
}

#[test]
fn look_scrolls_and_stays_at_non_negative_coordinates() {
    let mut v = View { top_left: pos(0, 0), buffer: Handle { id: 1 } };
    assert_eq!(look(&mut v, "rrd"), Ok(()));
    assert_eq!(v.top_left, pos(2, 1));
    assert_eq!(look(&mut v, "uuul"), Ok(()));
    assert_eq!(v.top_left, pos(1, 0));
    assert_eq!(look(&mut v, "rx"), Err("invalid option: x".to_string()));
    assert_eq!(v.top_left, pos(1, 0));
}

#[test]
fn move_to_char_finds_the_next_occurrence() {
    let b = buffer_with("hello world\nfoo", None, vec![sel(pos(0, 0), pos(0, 0))]);
    let opts = Options::new().flag("before").parse("o").unwrap();
    let s = sel(pos(0, 0), pos(0, 0));
    assert_eq!(move_to_char(&opts, &b, s), Ok(Some(sel(pos(4, 0), pos(4, 0)))));
    let s = sel(pos(4, 0), pos(4, 0));
    assert_eq!(move_to_char(&opts, &b, s), Ok(Some(sel(pos(7, 0), pos(7, 0)))));
    let s = sel(pos(8, 0), pos(8, 0));
    assert_eq!(move_to_char(&opts, &b, s), Ok(Some(sel(pos(1, 1), pos(1, 1)))));
    let before = Options::new().flag("before").parse("--before o").unwrap();
    let s = sel(pos(0, 0), pos(0, 0));
    assert_eq!(move_to_char(&before, &b, s), Ok(Some(sel(pos(3, 0), pos(3, 0)))));
    let missing = Options::new().flag("before").parse("z").unwrap();
    let s = sel(pos(2, 0), pos(0, 0));
    assert_eq!(move_to_char(&missing, &b, s), Ok(Some(s)));
    let empty = Options::new().flag("before").parse("").unwrap();
    assert_eq!(move_to_char(&empty, &b, s), Err("missing target char".to_string()));
}

#[test]
fn finish_selection_movement_keeps_moved_selections() {
    let originals = vec![sel(pos(0, 0), pos(1, 0)), sel(pos(2, 0), pos(3, 0)), sel(pos(4, 0), pos(5, 0))];
    let mut b = buffer_with("abcdefgh", None, originals.clone());
    let orig = b.view_selections(VIEW).unwrap().clone();
    let mut q = CommandQueue::new();
    let moved = vec![Some(sel(pos(6, 0), pos(6, 0))), None, Some(sel(pos(7, 0), pos(7, 0)))];
    assert_eq!(finish_selection_movement(&mut b, VIEW, &mut q, &orig, moved, true, false, false), Ok(()));
    let now = b.view_selections(VIEW).unwrap().all();
    assert_eq!(now, vec![sel(pos(0, 0), pos(6, 0)), sel(pos(4, 0), pos(7, 0))]);
    assert_eq!(drain(&mut q), vec!["selections-modified ".to_string()]);

    let orig = b.view_selections(VIEW).unwrap().clone();
    let moved = vec![Some(sel(pos(1, 0), pos(1, 0))), Some(sel(pos(2, 0), pos(2, 0)))];
    assert_eq!(finish_selection_movement(&mut b, VIEW, &mut q, &orig, moved, false, true, true), Ok(()));
    assert_eq!(b.view_selections(VIEW).unwrap().all(), vec![sel(pos(6, 0), pos(1, 0))]);

    let orig = b.view_selections(VIEW).unwrap().clone();
    let result = finish_selection_movement(&mut b, VIEW, &mut q, &orig, vec![None], false, false, false);
    assert_eq!(result, Err("no selection left!".to_string()));
    assert_eq!(b.view_selections(VIEW).unwrap().all(), vec![sel(pos(6, 0), pos(1, 0))]);
}

#[test]
fn parse_i32_follows_the_standard_library() {
    assert_eq!(parse_i32("42"), Ok(42));
    assert_eq!(parse_i32("-17"), Ok(-17));
    assert_eq!(parse_i32("+5"), Ok(5));
    assert_eq!(parse_i32("2147483647"), Ok(i32::MAX));
    assert_eq!(parse_i32("-2147483648"), Ok(i32::MIN));
    assert_eq!(parse_i32(""), Err("cannot parse integer from empty string".to_string()));
    assert_eq!(parse_i32("-"), Err("invalid digit found in string".to_string()));
    assert_eq!(parse_i32("12a"), Err("invalid digit found in string".to_string()));
    assert_eq!(parse_i32(" 1"), Err("invalid digit found in string".to_string()));
    assert_eq!(parse_i32("2147483648"), Err("number too large to fit in target type".to_string()));
    assert_eq!(parse_i32("-2147483649"), Err("number too small to fit in target type".to_string()));
    for s in ["0", "-0", "+0", "007", "99999999999", "-x", "1-"] {
        assert_eq!(parse_i32(s), s.parse::<i32>().map_err(|e| e.to_string()), "{s}");
    }
}

#[test]
fn line_puts_a_single_selection_at_the_start_of_the_line() {
    let mut b = buffer_with("a\nb\nc", None, vec![sel(pos(1, 0), pos(1, 0)), sel(pos(0, 1), pos(0, 1))]);
    let mut q = CommandQueue::new();
    assert_eq!(ayed::commands::editor::line("2", &mut b, VIEW, &mut q), Ok(()));
    assert_eq!(b.view_selections(VIEW).unwrap().all(), vec![sel(pos(0, 1), pos(0, 1))]);
    assert_eq!(ayed::commands::editor::line("99", &mut b, VIEW, &mut q), Ok(()));
    assert_eq!(b.view_selections(VIEW).unwrap().all(), vec![sel(pos(0, 2), pos(0, 2))]);
    assert_eq!(ayed::commands::editor::line("-3", &mut b, VIEW, &mut q), Ok(()));
    assert_eq!(b.view_selections(VIEW).unwrap().all(), vec![sel(pos(0, 0), pos(0, 0))]);
    assert_eq!(ayed::commands::editor::line("x", &mut b, VIEW, &mut q), Err("invalid digit found in string".to_string()));
    assert_eq!(drain(&mut q).len(), 3);
}

#[test]
fn look_set_top_sets_the_top_row() {
    let mut v = View { top_left: pos(3, 4), buffer: Handle { id: 1 } };
    assert_eq!(look_set_top(&mut v, " 10 "), Ok(()));
    assert_eq!(v.top_left, pos(3, 10));
    assert_eq!(look_set_top(&mut v, "-2"), Ok(()));
    assert_eq!(v.top_left, pos(3, 0));
    assert!(look_set_top(&mut v, "ten").is_err());
    assert_eq!(v.top_left, pos(3, 0));
}

#[test]
fn selection_commands_shrink_flip_and_dismiss() {
    let mut b = buffer_with("abcdef", None, vec![sel(pos(0, 0), pos(2, 0)), sel(pos(5, 0), pos(3, 0))]);
    let mut q = CommandQueue::new();
    let flags = Options::new().flag("forward").flag("backward");
    let plain = Options::new().flag("forward").flag("backward").parse("").unwrap();
    selections_flip(&plain, &mut b, VIEW, &mut q);
    assert_eq!(b.view_selections(VIEW).unwrap().all(), vec![sel(pos(2, 0), pos(0, 0)), sel(pos(3, 0), pos(5, 0))]);
    assert_eq!(drain(&mut q).len(), 1);
    let forward = flags.parse("--forward").unwrap();
    selections_flip(&forward, &mut b, VIEW, &mut q);
    assert_eq!(b.view_selections(VIEW).unwrap().all(), vec![sel(pos(0, 0), pos(2, 0)), sel(pos(3, 0), pos(5, 0))]);
    assert_eq!(drain(&mut q).len(), 1);
    selections_flip(&forward, &mut b, VIEW, &mut q);
    assert!(q.is_empty());
    let backward = Options::new().flag("forward").flag("backward").parse("--backward").unwrap();
    selections_flip(&backward, &mut b, VIEW, &mut q);
    assert_eq!(b.view_selections(VIEW).unwrap().all(), vec![sel(pos(2, 0), pos(0, 0)), sel(pos(5, 0), pos(3, 0))]);
    selections_shrink(&mut b, VIEW, &mut q);
    assert_eq!(b.view_selections(VIEW).unwrap().all(), vec![sel(pos(0, 0), pos(0, 0)), sel(pos(3, 0), pos(3, 0))]);
    selections_dismiss_extras(&mut b, VIEW, &mut q);
    assert_eq!(b.view_selections(VIEW).unwrap().all(), vec![sel(pos(0, 0), pos(0, 0))]);
}

fn indent_options(input: &str) -> ayed::command::options::ParsedOptions<'_> {
    Options::new()
        .flag("more")
        .flag("less")
        .flag("reindent")
        .flag("auto")
        .flag("auto-dedent")
        .parse(input)
        .unwrap()
}

#[test]
fn indent_changes_the_covered_lines() {
    let mut b = buffer_with("a\n  b\nc\nd", None, vec![sel(pos(0, 0), pos(0, 1)), sel(pos(0, 3), pos(0, 3))]);
    let mut q = CommandQueue::new();
    assert_eq!(indent(&indent_options(""), 4, &mut b, VIEW, &mut q), Ok(()));
    assert_eq!(b.content_to_string(), "    a\n    b\nc\n    d");
    assert_eq!(indent(&indent_options("--less"), 4, &mut b, VIEW, &mut q), Ok(()));
    assert_eq!(b.content_to_string(), "a\nb\nc\nd");
    assert_eq!(indent(&indent_options("--less"), 4, &mut b, VIEW, &mut q), Ok(()));
    assert_eq!(b.content_to_string(), "a\nb\nc\nd");
}

#[test]
fn indent_auto_follows_the_line_above() {
    let mut b = buffer_with("  if x {\nfoo\n  }", None, vec![sel(pos(0, 1), pos(0, 1))]);
    let mut q = CommandQueue::new();
    assert_eq!(indent(&indent_options("--auto"), 2, &mut b, VIEW, &mut q), Ok(()));
    assert_eq!(b.content_to_string(), "  if x {\n    foo\n  }");
    let dedent = Options::new()
        .flag("more")
        .flag("less")
        .flag("reindent")
        .flag("auto")
        .flag("auto-dedent")
        .parse("--auto --auto-dedent");
    assert_eq!(dedent.err(), Some("options must be delimited by a single space character".to_string()));
}

#[test]
fn undo_and_redo_commands_report_what_they_did() {
    let mut b = buffer_with("ab", Some("f"), vec![sel(pos(1, 0), pos(1, 0))]);
    let mut q = CommandQueue::new();
    insert_char("X", &mut b, VIEW, &mut q).unwrap();
    b.checkpoint();
    drain(&mut q);
    assert_eq!(undo(&mut b, &mut q), Ok(()));
    assert_eq!(b.content_to_string(), "ab");
    assert_eq!(drain(&mut q), vec!["buffer-modified f".to_string(), "selections-modified ".to_string()]);
    assert_eq!(undo(&mut b, &mut q), Ok(()));
    assert_eq!(drain(&mut q), vec!["message  nothing to undo".to_string()]);
    assert_eq!(redo(&mut b, &mut q), Ok(()));
    assert_eq!(b.content_to_string(), "aXb");
    assert_eq!(drain(&mut q).len(), 2);
    assert_eq!(redo(&mut b, &mut q), Ok(()));
    assert_eq!(drain(&mut q), vec!["message  nothing to redo".to_string()]);
}

#[test]
fn yank_fills_the_register_with_the_selected_texts() {
    let b = buffer_with("hello\nworld", None, vec![sel(pos(0, 0), pos(4, 0)), sel(pos(0, 1), pos(1, 1))]);
    let mut q = CommandQueue::new();
    let mut reg = Register { content: String::new(), extra_content: vec!["old".to_string(), "x".to_string()] };
    yank(&b, VIEW, &mut reg, &mut q);
    assert_eq!(reg.content, "hello");
    assert_eq!(reg.extra_content, vec!["wo".to_string()]);
    assert_eq!(drain(&mut q), vec!["message yanked 2 selections".to_string()]);
    let b = buffer_with("hello", None, vec![sel(pos(1, 0), pos(1, 0))]);
    yank(&b, VIEW, &mut reg, &mut q);
    assert_eq!(reg.content, "e");
    assert!(reg.extra_content.is_empty());
    assert_eq!(drain(&mut q), vec!["message yanked 1 selection".to_string()]);
    assert_eq!(decimal_string(0), "0");
    assert_eq!(decimal_string(1234), "1234");
}

type LogFn = Box<dyn Fn(&str, &mut Vec<String>) -> Result<(), String>>;

#[test]
fn run_command_runs_the_registered_function_once() {
    let mut reg: CommandRegistry<LogFn> = CommandRegistry::new();
    reg.register("echo".to_string(), Box::new(|o: &str, log: &mut Vec<String>| {
        log.push(o.to_string());
        Ok(())
    }));
    reg.register("fail".to_string(), Box::new(|o: &str, _log: &mut Vec<String>| Err(format!("failed {o}"))));
    reg.register_event("evt".to_string());
    let mut log = Vec::new();
    assert_eq!(reg.run_command("echo hi there", &mut log), Ok(Ok(())));
    assert_eq!(log, vec!["hi there".to_string()]);
    assert_eq!(reg.run_command("fail x", &mut log), Ok(Err("failed x".to_string())));
    assert_eq!(reg.run_command("evt", &mut log), Ok(Ok(())));
    assert_eq!(reg.run_command("state-modified:mode", &mut log), Ok(Ok(())));
    assert_eq!(reg.run_command("nope a", &mut log), Err("unknown command 'nope'".to_string()));
    assert_eq!(log.len(), 1);
}

#[test]
fn state_commands_split_their_options() {
    let mut q = CommandQueue::new();
    assert_eq!(state_set("mode insert", &mut q), Ok(()));
    assert_eq!(drain(&mut q), vec!["state-before-modified:mode insert".to_string(), "state-set__part2 mode insert".to_string()]);
    assert_eq!(state_set("mode", &mut q), Err("bad options `mode`".to_string()));
    assert!(q.is_empty());
    let mut config = Config::new();
    assert_eq!(state_set_part2("mode  insert ", &mut config, &mut q), Ok(()));
    assert_eq!(config.state_value("mode"), Some("insert"));
    assert_eq!(drain(&mut q), vec!["state-modified:mode insert".to_string()]);
    assert_eq!(pending_command_run("x", &config, &mut q), Err("pending-command not set!".to_string()));
    config.set_state("pending-command".to_string(), "move-to-char".to_string());
    assert_eq!(pending_command_run("x", &config, &mut q), Ok(()));
    assert_eq!(drain(&mut q), vec!["move-to-char x".to_string()]);
}

#[test]
fn queueing_commands() {
    let mut q = CommandQueue::new();
    wq(&mut q);
    assert_eq!(drain(&mut q), vec!["buffer-write".to_string(), "quit".to_string()]);
    auto_indent_shim("\n", &mut q);
    auto_indent_shim("\\n", &mut q);
    auto_indent_shim("}", &mut q);
    auto_indent_shim("x", &mut q);
    assert_eq!(
        drain(&mut q),
        vec!["indent --auto".to_string(), "indent --auto".to_string(), "indent --auto --auto-dedent".to_string()]
    );
}

#[test]
fn format_set_sets_or_clears_the_format() {
    let mut b = buffer_with("x", None, vec![sel(pos(0, 0), pos(0, 0))]);
    let mut q = CommandQueue::new();
    format_set(" rust ", &mut b, &mut q);
    assert_eq!(b.forced_format, Some("rust".to_string()));
    assert_eq!(drain(&mut q), vec!["state-set format rust".to_string()]);
    format_set("  ", &mut b, &mut q);
    assert_eq!(b.forced_format, None);
    assert!(q.is_empty());
}

#[test]
fn keep_primary_cursor_in_view_scrolls_just_enough() {
    let b = buffer_with("x", None, vec![sel(pos(12, 7), pos(12, 7))]);
    let mut v = View { top_left: pos(0, 0), buffer: Handle { id: 1 } };
    let rect = ayed::ui::layout::Rect::new(0, 0, 10, 5);
    ayed::commands::editor::look_keep_primary_cursor_in_view(&mut v, rect, &b, VIEW);
    assert_eq!(v.top_left, pos(3, 3));
    let b = buffer_with("x", None, vec![sel(pos(2, 2), pos(2, 2))]);
    ayed::commands::editor::look_keep_primary_cursor_in_view(&mut v, rect, &b, VIEW);
    assert_eq!(v.top_left, pos(3, 3));
}

#[test]
fn move_regex_moves_to_the_next_match_then_to_later_rows() {
    let b = TextBuffer::new_with_content("foo bar\nbaz qux", None);
    let at = |c: i32, r: i32| Position::new(c, r);
    let m = |s: Selection, rev: bool, stay: bool| {
        ayed::commands::search::move_selection_to_regex(&b, s, "ba\\w", rev, stay)
    };
    assert_eq!(m(sel(at(0, 0), at(0, 0)), false, false), Ok(sel(at(4, 0), at(6, 0))));
    assert_eq!(m(sel(at(4, 0), at(6, 0)), false, false), Ok(sel(at(0, 1), at(2, 1))));
    assert_eq!(m(sel(at(4, 0), at(6, 0)), false, true), Ok(sel(at(4, 0), at(6, 0))));
    assert_eq!(m(sel(at(0, 1), at(2, 1)), true, false), Ok(sel(at(2, 1), at(0, 1))));
    assert_eq!(m(sel(at(0, 0), at(0, 0)), true, false), Ok(sel(at(0, 0), at(0, 0))));
}

#[test]
fn move_regex_refuses_a_bad_pattern_and_keeps_empty_matches() {
    let b = TextBuffer::new_with_content("foo bar", None);
    let start = sel(Position::new(0, 0), Position::new(0, 0));
    assert_eq!(ayed::commands::search::move_selection_to_regex(&b, start, "(", false, false), Err(()));
    assert_eq!(
        ayed::commands::search::move_selection_to_regex(&b, start, "$", false, false),
        Ok(sel(Position::new(7, 0), Position::new(7, 0)))
    );
}

#[test]
fn regex_needle_skips_matches_before_the_cursor() {
    let f = ayed::commands::search::regex_needle_in_line;
    assert_eq!(f("ab ab ab", "ab", 1, false), Ok(Some((3, 4))));
    assert_eq!(f("ab ab ab", "ab", 3, true), Ok(Some((1, 0))));
    assert_eq!(f("ab ab ab", "ab", 7, false), Ok(None));
    assert_eq!(f("é x", "x", 0, false), Ok(Some((2, 2))));
}

#[test]
fn paste_puts_the_register_after_or_before_each_selection() {
    let reg = Register { content: "X".to_string(), extra_content: Vec::new() };
    let mut b = buffer_with("ab\ncd", Some("/tmp/p.txt"), vec![sel(pos(0, 0), pos(0, 0))]);
    let mut q = CommandQueue::new();
    ayed::commands::paste::paste(false, &mut b, VIEW, &reg, &mut q);
    assert_eq!(b.content_to_string(), "aXb\ncd");
    assert_eq!(b.view_selections(VIEW).unwrap().all(), vec![sel(pos(1, 0), pos(1, 0))]);
    assert_eq!(drain(&mut q), vec!["buffer-modified /tmp/p.txt".to_string(), "selections-modified ".to_string()]);

    let mut b = buffer_with("ab\ncd", None, vec![sel(pos(2, 1), pos(2, 1))]);
    ayed::commands::paste::paste(false, &mut b, VIEW, &reg, &mut q);
    assert_eq!(b.content_to_string(), "ab\ncd\nX");

    let lines = Register { content: "L\n".to_string(), extra_content: Vec::new() };
    let mut b = buffer_with("ab\ncd", None, vec![sel(pos(1, 1), pos(1, 1))]);
    ayed::commands::paste::paste(true, &mut b, VIEW, &lines, &mut q);
    assert_eq!(b.content_to_string(), "ab\nL\ncd");
}

#[test]
fn paste_gives_each_selection_its_own_register_text() {
    let reg = Register { content: "1".to_string(), extra_content: vec!["2".to_string()] };
    let mut b = buffer_with("ab\ncd", None, vec![sel(pos(0, 0), pos(0, 0)), sel(pos(0, 1), pos(0, 1))]);
    let mut q = CommandQueue::new();
    ayed::commands::paste::paste(true, &mut b, VIEW, &reg, &mut q);
    assert_eq!(b.content_to_string(), "1ab\n2cd");
}
