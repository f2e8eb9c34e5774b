use ayed::command::hooks_of_command;
use ayed::config::insert_order_map::InsertOrderMap;
use ayed::config::{ConditionalMapping, Config, ConfigModule};
use ayed::panels::line_numbers::LineNumbers;
use ayed::panels::list_picker::ListPicker;
use ayed::panels::prompt::Prompt;
use ayed::panels::LayoutPlace;
use ayed::state::resources::Resources;

#[test]
fn hooks_add_the_command_options_when_they_have_none() {
    let mut entries = InsertOrderMap::new();
    entries.insert(
        "buffer-saved".to_string(),
        vec!["format".to_string(), "message saved".to_string()],
    );
    let mut config = Config::new();
    config.add_module(ConfigModule {
        mappings: vec![ConditionalMapping { name: "hooks".to_string(), selectors: vec![], layer: 0, entries }],
    });
    assert_eq!(
        hooks_of_command(&config, "buffer-saved src/lib.rs"),
        vec!["format src/lib.rs".to_string(), "message saved".to_string()]
    );
    assert!(hooks_of_command(&config, "quit").is_empty());
    assert!(hooks_of_command(&Config::new(), "buffer-saved x").is_empty());
}

#[test]
fn line_numbers_width_follows_the_digits() {
    let ln = LineNumbers::default();
    assert_eq!(ln.required_width(None), 2);
    assert_eq!(ln.required_width(Some(1)), 4);
    assert_eq!(ln.required_width(Some(9)), 4);
    assert_eq!(ln.required_width(Some(10)), 5);
    assert_eq!(ln.required_width(Some(12345)), 8);
    assert_eq!(ln.required_width(Some(i32::MAX)), 13);
}

#[test]
fn panels_ask_for_their_places() {
    let p = Prompt::default().layout_info();
    assert_eq!(p.place, LayoutPlace::South);
    assert_eq!(p.height, Some(1));
    let l = ListPicker::default().layout_info();
    assert_eq!(l.place, LayoutPlace::FloatCenter);
    let pad = l.padding.unwrap();
    assert_eq!((pad.top, pad.bottom, pad.left, pad.right), (2, 2, 6, 6));
}

#[test]
fn focus_gives_a_panel_its_own_buffer() {
    let mut resources = Resources::new();
    let mut prompt = Prompt::default();
    prompt.on_focus(&mut resources);
    let view = prompt.view().unwrap();
    let buffer = resources.views.get(view).unwrap().buffer;
    let b = resources.buffers.get(buffer).unwrap();
    assert_eq!(b.line_count(), 1);
    assert!(b.view_selections(view.id).is_some());
    prompt.on_unfocus(&mut resources);
    assert!(prompt.view().is_none());
    assert!(resources.views.get(view).is_none());
    assert!(resources.buffers.get(buffer).is_none());
}

#[test]
fn missing_file_opens_as_empty_buffer_with_its_path() {
    let mut resources = Resources::new();
    let a = resources.open_file_or_scratch("/tmp/a.txt".to_string(), Some("x\ny"));
    let b = resources.open_file_or_scratch("/tmp/new.txt".to_string(), None);
    assert_eq!(resources.buffers.get(a).unwrap().content_to_string(), "x\ny");
    let nb = resources.buffers.get(b).unwrap();
    assert_eq!(nb.content_to_string(), "");
    assert_eq!(nb.path().map(|p| p.as_str()), Some("/tmp/new.txt"));
    assert_eq!(resources.buffer_with_path("/tmp/new.txt"), Some(b));
}

fn jump_point(column: i32) -> ayed::panels::warpdrive::JumpPoint {
    let p = ayed::position::Position::new(column, 0);
    ayed::panels::warpdrive::JumpPoint { code: String::new(), start_in_view: p, start: p, end: p }
}

#[test]
fn jump_points_get_letters_then_pairs() {
    let mut few: Vec<_> = (0..3).map(jump_point).collect();
    ayed::panels::warpdrive::assign_jump_point_codes(&mut few);
    let codes: Vec<&str> = few.iter().map(|j| j.code.as_str()).collect();
    assert_eq!(codes, vec!["a", "b", "c"]);
    assert_eq!(few[2].start.column, 2);

    let mut many: Vec<_> = (0..30).map(jump_point).collect();
    ayed::panels::warpdrive::assign_jump_point_codes(&mut many);
    let codes: Vec<&str> = many.iter().map(|j| j.code.as_str()).collect();
    assert_eq!(&codes[..4], &["aa", "ab", "ba", "bb"]);
    assert_eq!(codes[29], "ob");
    for (i, a) in codes.iter().enumerate() {
        for (j, b) in codes.iter().enumerate() {
            if i != j {
                assert!(!b.starts_with(a));
            }
        }
    }
}

#[test]
fn jump_point_words_cover_each_word_of_each_row() {
    let content = vec!["ab  cd".to_string(), "".to_string(), "é_x!y".to_string()];
    let words = ayed::panels::warpdrive::jump_point_words(&content).unwrap();
    assert_eq!(
        words,
        vec![
            (ayed::position::Position::new(0, 0), ayed::position::Position::new(1, 0)),
            (ayed::position::Position::new(4, 0), ayed::position::Position::new(5, 0)),
            (ayed::position::Position::new(0, 2), ayed::position::Position::new(2, 2)),
            (ayed::position::Position::new(4, 2), ayed::position::Position::new(4, 2)),
        ]
    );
}

#[test]
fn jump_point_words_of_no_line_is_empty() {
    assert_eq!(ayed::panels::warpdrive::jump_point_words(&Vec::new()), Some(Vec::new()));
}

#[test]
fn typing_a_whole_code_finishes_on_its_jump_point() {
    let p = |c: i32| ayed::position::Position::new(c, 0);
    let jp = |code: &str, c: i32| ayed::panels::warpdrive::JumpPoint {
        code: code.to_string(),
        start_in_view: p(c),
        start: p(c),
        end: p(c + 1),
    };
    let mut s = ayed::panels::warpdrive::WarpdriveState::from_parts(
        vec!["x".to_string()],
        vec![jp("aa", 0), jp("ab", 3), jp("b", 6)],
    );
    assert!(matches!(s.input('a'), ayed::panels::warpdrive::WarpdriveInputResult::Unfinished));
    assert!(matches!(s.input('b'), ayed::panels::warpdrive::WarpdriveInputResult::Finished((a, b)) if a == p(3) && b == p(4)));
}

#[test]
fn line_numbers_are_right_aligned_and_stop_after_the_last_line() {
    let mut ln = LineNumbers::default();
    ln.set_rect(ayed::ui::layout::Rect { x: 0, y: 0, width: 5, height: 4 });
    let config = ayed::config::Config::new();
    let top = ayed::position::Position::new(0, 0);
    let panel = ln.render(&config, 4, top, 3, 1);
    assert_eq!(panel.content, vec!["  1  ", "  2  ", "  3  ", "     "]);
    assert_eq!(panel.spans.len(), 4);
    let scrolled = ln.render(&config, 2, ayed::position::Position::new(2, 8), 20, 0);
    assert_eq!(scrolled.content, vec!["  9‹ ", " 10‹ "]);
}

#[test]
fn suggestions_box_pads_items_and_marks_the_selected_one() {
    let accent = ayed::ui::style::Color { r: 1, g: 2, b: 3 };
    let bright = ayed::ui::style::Color { r: 4, g: 5, b: 6 };
    let items = vec!["ab".to_string(), "long_item_x".to_string()];
    let p = ayed::panels::suggestions::Suggestions::render_at_cursor(
        &items,
        2,
        ayed::position::Position::new(5, 3),
        ayed::ui::layout::Size::new(80, 24),
        accent,
        bright,
    );
    assert_eq!(p.position, ayed::position::Position::new(4, 4));
    assert_eq!(p.size, ayed::ui::layout::Size::new(11, 2));
    assert_eq!(p.content, vec!["ab         ".to_string(), "long_item_x".to_string()]);
    assert_eq!(p.spans[0].style.background_color, Some(accent));
    assert_eq!(p.spans[1].style.background_color, Some(bright));
    let short = vec!["x".to_string()];
    let m = ayed::panels::suggestions::Suggestions::render_at_modeline(
        &short,
        0,
        ayed::ui::layout::Rect { x: 0, y: 20, width: 4, height: 1 },
        accent,
        bright,
    );
    assert_eq!(m.position, ayed::position::Position::new(0, 19));
    assert_eq!(m.content, vec!["x   ".to_string()]);
}
