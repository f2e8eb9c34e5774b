use ayed::command::CommandQueue;
use ayed::commands::buffers::buffer_close;
use ayed::commands::completions::{
    completions_clear, completions_gather, completions_select_step, contains_str, CompletionsState,
};
use ayed::commands::diagnostics::{diagnostics_hover, diagnostics_move_target};
use ayed::commands::prompt::{prompt_command, prompt_history_record, prompt_history_step, replace_all};
use ayed::config::module::{parse_module, ModuleError, TemplatedStringPart};
use ayed::config_parser::ast::{
    Ast, Block, BlockKind, Entry, MappingBlock, MixinBlock, SelectorBlock, Template, TemplatePart,
};
use ayed::panels::completions::{labels_width, popup_layout, scrollbar_content};
use ayed::position::Position;
use ayed::ui::layout::Size;
use ayed::range::Range;
use ayed::state::diagnostics::{Diagnostic, DiagnosticKind};
use ayed::state::modeline::PromptHistory;
use ayed::state::text_buffer::TextBuffer;

fn pos(column: i32, row: i32) -> Position {
    Position::new(column, row)
}

fn drain(queue: &mut CommandQueue) -> Vec<String> {
    let mut out = Vec::new();
    while let Some(c) = queue.pop() {
        out.push(c);
    }
    out
}

#[test]
fn gather_collects_symbols_that_extend_the_prefix() {
    let b = TextBuffer::new_with_content("foo_bar fo\nfoo foo_baz fox", None);
    let mut c = CompletionsState::default();
    assert_eq!(completions_gather(&mut c, &b, pos(10, 0), "active-buffer"), Ok(()));
    assert_eq!(c.items, vec!["foo_bar".to_string(), "foo".to_string(), "foo_baz".to_string(), "fox".to_string()]);
    assert_eq!(c.selected_item, 0);
    assert_eq!(c.original_symbol_start, pos(8, 0));
    assert_eq!(c.prompt_suggestion_cursor_position, Some(pos(11, 0)));
}

#[test]
fn gather_refuses_other_sources_and_waits_while_selecting() {
    let b = TextBuffer::new_with_content("ab a", None);
    let mut c = CompletionsState::default();
    assert_eq!(
        completions_gather(&mut c, &b, pos(4, 0), "lsp"),
        Err("only 'active-buffer' is supported as suggestion source".to_string())
    );
    c.prompt_suggestion_cursor_position = Some(pos(4, 0));
    c.selected_item = 1;
    c.items = vec!["x".to_string()];
    assert_eq!(completions_gather(&mut c, &b, pos(4, 0), "active-buffer"), Ok(()));
    assert_eq!(c.items, vec!["x".to_string()]);
}

#[test]
fn gather_without_a_symbol_at_the_cursor_clears_the_items() {
    let b = TextBuffer::new_with_content("ab  ", None);
    let mut c = CompletionsState::default();
    c.items = vec!["x".to_string()];
    assert_eq!(completions_gather(&mut c, &b, pos(4, 0), "active-buffer"), Ok(()));
    assert!(c.items.is_empty());
    assert_eq!(c.prompt_suggestion_cursor_position, None);
}

#[test]
fn select_step_cycles_through_items_and_the_original() {
    let mut c = CompletionsState::default();
    assert_eq!(completions_select_step(&mut c, true, false), (false, false));
    c.items = vec!["a".to_string(), "b".to_string()];
    assert_eq!(completions_select_step(&mut c, true, false), (true, false));
    assert_eq!(c.selected_item, 1);
    assert_eq!(completions_select_step(&mut c, true, false), (false, false));
    assert_eq!(c.selected_item, 2);
    assert_eq!(completions_select_step(&mut c, true, false), (false, true));
    assert_eq!(c.selected_item, 0);
    assert_eq!(completions_select_step(&mut c, false, true), (true, false));
    assert_eq!(c.selected_item, 2);
    completions_clear(&mut c);
    assert!(c.items.is_empty() && c.selected_item == 0 && c.prompt_suggestion_cursor_position.is_none());
    assert!(contains_str(&vec!["a".to_string()], "a"));
    assert!(!contains_str(&vec!["a".to_string()], "b"));
}

#[test]
fn replace_all_replaces_each_occurrence_from_the_left() {
    assert_eq!(replace_all("x <PROMPT> y <PROMPT>", "<PROMPT>", "ab"), "x ab y ab");
    assert_eq!(replace_all("aaa", "aa", "b"), "ba");
    assert_eq!(replace_all("none", "<PROMPT>", "q"), "none");
}

#[test]
fn prompt_runs_the_line_or_the_override() {
    assert_eq!(prompt_command("w", ""), Some("w".to_string()));
    assert_eq!(prompt_command("foo", "  search <PROMPT> "), Some("search foo".to_string()));
    assert_eq!(prompt_command("  ", ""), None);
}

#[test]
fn prompt_history_records_recalls_and_steps() {
    let mut h = PromptHistory { entries: Vec::new(), selected_item: 0 };
    assert_eq!(prompt_history_record(&mut h, ""), "");
    assert_eq!(prompt_history_record(&mut h, "a"), "a");
    assert_eq!(prompt_history_record(&mut h, "b"), "b");
    assert_eq!(h.entries, vec!["a".to_string(), "b".to_string()]);
    assert_eq!(h.selected_item, 2);
    assert_eq!(prompt_history_record(&mut h, ""), "b");
    assert_eq!(prompt_history_step(&mut h, false, true), ("b".to_string(), true));
    assert_eq!(prompt_history_step(&mut h, false, true), ("a".to_string(), true));
    assert_eq!(prompt_history_step(&mut h, false, true), ("a".to_string(), true));
    assert_eq!(h.selected_item, 0);
    assert_eq!(prompt_history_step(&mut h, true, false), ("b".to_string(), true));
    assert_eq!(prompt_history_step(&mut h, true, false), (String::new(), false));
    assert_eq!(prompt_history_step(&mut h, true, false), (String::new(), false));
    assert_eq!(h.selected_item, 2);
}

#[test]
fn buffer_close_checks_unsaved_changes() {
    let mut q = CommandQueue::new();
    assert_eq!(buffer_close(None, false, &mut q), Err("no currently open buffer".to_string()));
    let mut b = TextBuffer::new_with_content("x", Some("/tmp/a.txt".to_string()));
    b.insert_str_at("y".to_string(), pos(0, 0)).unwrap();
    assert_eq!(buffer_close(Some(&b), false, &mut q), Err("there are unsaved changes".to_string()));
    assert!(drain(&mut q).is_empty());
    assert_eq!(buffer_close(Some(&b), true, &mut q), Ok(()));
    assert_eq!(
        drain(&mut q),
        vec!["buffer-closed /tmp/a.txt".to_string(), "buffer-close__part2 /tmp/a.txt".to_string()]
    );
}

fn diag(start: Position, end: Position, message: &str) -> Diagnostic {
    Diagnostic { kind: DiagnosticKind::Error, range: Range { start, end }, message: message.to_string() }
}

#[test]
fn diagnostics_move_goes_to_the_nearest_one() {
    let a = diag(pos(0, 0), pos(2, 0), "a");
    let b = diag(pos(0, 5), pos(3, 5), "b");
    let c = diag(pos(0, 3), pos(1, 3), "c");
    let all = vec![&a, &b, &c];
    assert_eq!(diagnostics_move_target(&all, pos(0, 2), true, false), Ok(pos(0, 3)));
    assert_eq!(diagnostics_move_target(&all, pos(0, 2), false, false), Ok(pos(0, 3)));
    assert_eq!(diagnostics_move_target(&all, pos(0, 2), false, true), Ok(pos(0, 0)));
    assert_eq!(diagnostics_move_target(&all, pos(4, 5), true, false), Err("no further diagnostics found".to_string()));
    assert_eq!(diagnostics_move_target(&all, pos(4, 5), false, true), Ok(pos(0, 5)));
}

#[test]
fn diagnostics_hover_shows_the_last_one_under_the_cursor() {
    let a = diag(pos(0, 0), pos(5, 0), "a");
    let b = diag(pos(2, 0), pos(4, 0), "b");
    assert_eq!(diagnostics_hover(&vec![&a, &b], pos(3, 0)), Some("b".to_string()));
    assert_eq!(diagnostics_hover(&vec![&a, &b], pos(1, 0)), Some("a".to_string()));
    assert_eq!(diagnostics_hover(&vec![&a, &b], pos(6, 0)), None);
}

fn block(is_override: bool, kind: BlockKind) -> Block {
    Block { is_override, kind }
}

fn mapping(name: &str, entry: &str, parts: Vec<TemplatePart>) -> BlockKind {
    BlockKind::Mapping(MappingBlock {
        name: name.to_string(),
        entries: vec![Entry { name: entry.to_string(), values: vec![Template { parts }] }],
    })
}

#[test]
fn parse_module_walks_selectors_mixins_and_templates() {
    let ast = Ast {
        top_level_blocks: vec![
            block(
                false,
                BlockKind::Mixin(MixinBlock {
                    name: "m".to_string(),
                    children: vec![block(true, mapping("theme", "fg", vec![TemplatePart::Span("red".to_string())]))],
                }),
            ),
            block(
                false,
                BlockKind::Selector(SelectorBlock {
                    state_name: "file".to_string(),
                    pattern: ".*\\.rs".to_string(),
                    children: vec![
                        block(
                            false,
                            mapping(
                                "keys",
                                "x",
                                vec![
                                    TemplatePart::Span("a".to_string()),
                                    TemplatePart::Escape("$".to_string()),
                                    TemplatePart::Substitution("v".to_string()),
                                    TemplatePart::Span("b".to_string()),
                                ],
                            ),
                        ),
                        block(false, BlockKind::Use("m".to_string())),
                    ],
                }),
            ),
        ],
    };
    let errors: Vec<()> = Vec::new();
    let ms = match parse_module(&ast, &errors) {
        Ok(ms) => ms,
        Err(e) => panic!("{:?}", e),
    };
    assert_eq!(ms.len(), 2);
    assert_eq!(ms[0].name, "keys");
    assert_eq!(ms[0].layer, 0);
    assert_eq!(ms[0].selectors.len(), 1);
    assert_eq!(ms[0].selectors[0].targeted_state, "file");
    assert_eq!(ms[0].selectors[0].pattern, "^.*\\.rs$");
    let parts = &ms[0].entries[0].values[0].parts;
    assert_eq!(parts.len(), 3);
    assert!(matches!(&parts[0], TemplatedStringPart::String(s) if s == "a$"));
    assert!(matches!(&parts[1], TemplatedStringPart::Substitution(s) if s == "v"));
    assert!(matches!(&parts[2], TemplatedStringPart::String(s) if s == "b"));
    assert_eq!(ms[1].name, "theme");
    assert_eq!(ms[1].layer, 1);
    assert_eq!(ms[1].selectors.len(), 1);
}

#[test]
fn parse_module_reports_what_it_cannot_read() {
    let errors: Vec<()> = vec![()];
    let empty = Ast { top_level_blocks: Vec::new() };
    assert!(matches!(parse_module(&empty, &errors), Err(ModuleError::Syntax)));
    let no_errors: Vec<()> = Vec::new();
    let unknown = Ast { top_level_blocks: vec![block(false, BlockKind::Use("nope".to_string()))] };
    assert!(matches!(parse_module(&unknown, &no_errors), Err(ModuleError::UnknownMixin(n)) if n == "nope"));
    let bad = Ast {
        top_level_blocks: vec![block(
            false,
            BlockKind::Selector(SelectorBlock { state_name: "mode".to_string(), pattern: "(".to_string(), children: Vec::new() }),
        )],
    };
    assert!(matches!(parse_module(&bad, &no_errors), Err(ModuleError::InvalidSelector(p)) if p == "^($"));
    let nested = Ast {
        top_level_blocks: vec![block(
            false,
            BlockKind::Selector(SelectorBlock {
                state_name: "mode".to_string(),
                pattern: "x".to_string(),
                children: vec![block(false, BlockKind::Mixin(MixinBlock { name: "m".to_string(), children: Vec::new() }))],
            }),
        )],
    };
    assert!(matches!(parse_module(&nested, &no_errors), Err(ModuleError::NestedMixin(n)) if n == "m"));
}

#[test]
fn panel_focus_takes_the_first_word() {
    assert_eq!(ayed::commands::prompt::panel_to_focus("  modeline extra"), Ok("modeline".to_string()));
    assert_eq!(ayed::commands::prompt::panel_to_focus("editor"), Ok("editor".to_string()));
    assert_eq!(ayed::commands::prompt::panel_to_focus("   "), Err("missing panel name".to_string()));
}

fn item(label: &str, annotation: Option<&str>) -> ayed::state::completions::CompletionItem {
    ayed::state::completions::CompletionItem {
        label: label.to_string(),
        text: label.to_string(),
        extra_edits: Vec::new(),
        kind: ayed::state::completions::CompletionItemKind::Variable,
        source: ayed::state::completions::CompletionSource::Buffer,
        source_idx: 0,
        type_annotation: annotation.map(|a| a.to_string()),
        documentation: None,
    }
}

#[test]
fn completion_box_layout_and_scroll_bar() {
    assert_eq!(labels_width(&vec![item("ab", None), item("x", Some("i32"))]), 11);
    assert_eq!(labels_width(&Vec::new()), 0);
    let l = popup_layout(20, 10, 30, pos(5, 3), Size::new(80, 24));
    assert_eq!((l.position, l.size, l.first_item), (pos(4, 4), Size::new(30, 9), 5));
    let l = popup_layout(3, 0, 5, pos(70, 20), Size::new(80, 24));
    assert_eq!((l.position, l.size, l.first_item), (pos(68, 17), Size::new(12, 3), 0));
    let bar = scrollbar_content(9, 20, 5);
    let expected: Vec<String> = [" ", " ", "▌", "▌", "▌", "▌", "▌", " ", " "].iter().map(|s| s.to_string()).collect();
    assert_eq!(bar, expected);
}
