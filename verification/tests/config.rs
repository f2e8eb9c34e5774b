use ayed::config::applied_config::build_applied_config;
use ayed::config::insert_order_map::InsertOrderMap;
use ayed::config::{ConditionalMapping, Config, ConfigModule, ConfigState, Selector};
use ayed::input::{Input, Modifiers};
use ayed::ui::style::Color;

fn entries(pairs: &[(&str, &[&str])]) -> InsertOrderMap<Vec<String>> {
    let mut m = InsertOrderMap::new();
    for (k, vs) in pairs {
        m.insert(k.to_string(), vs.iter().map(|v| v.to_string()).collect());
    }
    m
}

fn mapping(name: &str, selectors: Vec<Selector>, layer: i32, pairs: &[(&str, &[&str])]) -> ConditionalMapping {
    ConditionalMapping {
        name: name.to_string(),
        selectors,
        layer,
        entries: entries(pairs),
    }
}

fn selector(state: &str, pattern: &str) -> Selector {
    Selector::new(state.to_string(), pattern).unwrap()
}

fn state(pairs: &[(&str, &str)]) -> ConfigState {
    let mut s = ConfigState::new();
    for (k, v) in pairs {
        s.set(k.to_string(), v.to_string());
    }
    s
}

fn values(config: &ayed::config::applied_config::AppliedConfig, mapping: &str, entry: &str) -> Option<Vec<String>> {
    config.get(mapping).and_then(|m| m.get(entry)).cloned()
}

#[test]
fn selector_anchors_the_pattern() {
    let s = selector("mode", "text/.*");
    assert_eq!(s.pattern, "^text/.*$");
    assert!(s.is_selected(&state(&[("mode", "text/edit")])));
    assert!(!s.is_selected(&state(&[("mode", "normal")])));
    assert!(!s.is_selected(&state(&[("file", "text/edit")])));
    // The whole value must match.
    assert!(!s.is_selected(&state(&[("mode", "xtext/edit")])));
}

#[test]
fn selector_refuses_an_invalid_pattern() {
    let e = Selector::new("mode".to_string(), "(").unwrap_err();
    assert_eq!(e.pattern, "^($");
}

#[test]
fn mapping_is_active_when_all_selectors_hold() {
    let m = mapping(
        "editor",
        vec![selector("mode", "edit"), selector("format", "rust")],
        0,
        &[],
    );
    assert!(m.is_active(&state(&[("mode", "edit"), ("format", "rust")])));
    assert!(!m.is_active(&state(&[("mode", "edit")])));
    assert_eq!(m.specificity(), 2);
    let always = mapping("editor", vec![], 0, &[]);
    assert!(always.is_active(&state(&[])));
}

#[test]
fn more_specific_mapping_replaces_values() {
    let modules = vec![ConfigModule {
        mappings: vec![
            mapping("editor", vec![selector("mode", "edit")], 0, &[("indent-size", &["8"])]),
            mapping("editor", vec![], 0, &[("indent-size", &["2"]), ("tab", &["no"])]),
        ],
    }];
    let applied = build_applied_config(&modules, &state(&[("mode", "edit")]));
    assert_eq!(values(&applied, "editor", "indent-size"), Some(vec!["8".to_string()]));
    assert_eq!(values(&applied, "editor", "tab"), Some(vec!["no".to_string()]));
    assert_eq!(applied.editor.indent_size, 8);

    let applied = build_applied_config(&modules, &state(&[("mode", "view")]));
    assert_eq!(values(&applied, "editor", "indent-size"), Some(vec!["2".to_string()]));
    assert_eq!(applied.editor.indent_size, 2);
}

#[test]
fn equally_specific_mappings_merge_later_first() {
    let modules = vec![
        ConfigModule { mappings: vec![mapping("keybinds", vec![], 0, &[("<a>", &["x"])])] },
        ConfigModule { mappings: vec![mapping("keybinds", vec![], 0, &[("<a>", &["y"]), ("<b>", &["z"])])] },
    ];
    let applied = build_applied_config(&modules, &state(&[]));
    assert_eq!(values(&applied, "keybinds", "<a>"), Some(vec!["y".to_string(), "x".to_string()]));
    assert_eq!(values(&applied, "keybinds", "<b>"), Some(vec!["z".to_string()]));
}

#[test]
fn hooks_always_merge() {
    let modules = vec![ConfigModule {
        mappings: vec![
            mapping("hooks", vec![], 0, &[("buffer-saved", &["a"])]),
            mapping("hooks", vec![selector("mode", ".*")], 0, &[("buffer-saved", &["b"])]),
        ],
    }];
    let applied = build_applied_config(&modules, &state(&[("mode", "edit")]));
    assert_eq!(values(&applied, "hooks", "buffer-saved"), Some(vec!["b".to_string(), "a".to_string()]));
}

#[test]
fn higher_layer_replaces_lower_layers() {
    let modules = vec![ConfigModule {
        mappings: vec![
            mapping("theme", vec![], 1, &[("fg", &["#ff0000"])]),
            mapping("theme", vec![selector("mode", ".*")], 0, &[("fg", &["#00ff00"]), ("bg", &["#000000"])]),
        ],
    }];
    let applied = build_applied_config(&modules, &state(&[("mode", "edit")]));
    assert_eq!(values(&applied, "theme", "fg"), Some(vec!["#ff0000".to_string()]));
    assert_eq!(values(&applied, "theme", "bg"), None);
}

#[test]
fn inactive_mappings_are_left_out() {
    let modules = vec![ConfigModule {
        mappings: vec![mapping("editor", vec![selector("mode", "edit")], 0, &[("indent-size", &["8"])])],
    }];
    let applied = build_applied_config(&modules, &state(&[]));
    assert!(applied.get("editor").is_none());
    assert_eq!(applied.editor.indent_size, 4);
}

#[test]
fn syntax_editor_and_theme_are_read_from_the_mappings() {
    let modules = vec![ConfigModule {
        mappings: vec![
            mapping("syntax", vec![], 0, &[("keyword", &["fn", "let"])]),
            mapping("editor", vec![], 0, &[("indent-size", &["300"])]),
            mapping("theme", vec![], 0, &[("fg", &["#ff8000"]), ("bad", &["blue"]), ("none", &[])]),
        ],
    }];
    let applied = build_applied_config(&modules, &state(&[]));
    assert_eq!(applied.syntax.get("keyword"), Some(&vec!["fn".to_string(), "let".to_string()]));
    // 300 is not a u8: the default stays.
    assert_eq!(applied.editor.indent_size, 4);
    assert_eq!(applied.theme.get("fg"), Some(&Color { r: 255, g: 128, b: 0 }));
    assert!(applied.theme.get("bad").is_none());
    assert!(applied.theme.get("none").is_none());
}

#[test]
fn config_applies_state_changes() {
    let mut config = Config::new();
    config.add_module(ConfigModule {
        mappings: vec![
            mapping("editor", vec![], 0, &[("indent-size", &["2"])]),
            mapping("editor", vec![selector("format", "rust")], 0, &[("indent-size", &["4"])]),
            mapping("keybinds", vec![], 0, &[("<c-s>", &["buffer-write"]), ("else", &["insert-char"])]),
        ],
    });
    assert_eq!(config.get_editor().indent_size, 2);
    config.set_state("format".to_string(), "rust".to_string());
    assert_eq!(config.state_value("format"), Some("rust"));
    assert_eq!(config.get_editor().indent_size, 4);
    assert_eq!(config.get_entry_value("editor", "indent-size"), Ok("4"));
    assert_eq!(
        config.get_entry_value("editor", "missing"),
        Err("entry not found 'missing' of 'editor'".to_string())
    );
    let save = Input::from_char_mods('s', Modifiers::default().with_ctrl());
    assert_eq!(config.get_keybind(save), Some(&["buffer-write".to_string()][..]));
    assert_eq!(config.get_keybind(Input::from_char('q')), None);
    assert_eq!(config.get_keybind_else(), Some(&["insert-char".to_string()][..]));
    assert_eq!(config.get_theme_color("fg"), None);
}

#[test]
fn config_state_set_and_get() {
    let mut s = ConfigState::new();
    assert_eq!(s.get(ConfigState::FILE), None);
    s.set(ConfigState::FILE.to_string(), "src/lib.rs".to_string());
    s.set(ConfigState::FORMAT.to_string(), "rust".to_string());
    s.set(ConfigState::FILE.to_string(), "src/main.rs".to_string());
    assert_eq!(s.get("file"), Some("src/main.rs"));
    assert_eq!(s.get("format"), Some("rust"));
}

#[test]
fn untargeted_states_change_nothing() {
    let modules = vec![ConfigModule {
        mappings: vec![
            mapping("editor", vec![selector("mode", "edit")], 0, &[("indent-size", &["8"])]),
            mapping("editor", vec![], 0, &[("indent-size", &["2"])]),
        ],
    }];
    let a = build_applied_config(&modules, &state(&[("mode", "edit")]));
    let b = build_applied_config(&modules, &state(&[("mode", "edit"), ("file", "x.rs")]));
    assert_eq!(values(&a, "editor", "indent-size"), values(&b, "editor", "indent-size"));
    assert_eq!(a.editor.indent_size, b.editor.indent_size);
}
