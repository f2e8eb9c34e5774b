use ayed::panels::file_picker::{file_list_to_file_tree, FileListItem};
use ayed::panels::list_picker::{self, ListPickerItem, ListPickerItemKind};

fn file(p: &str) -> FileListItem {
    FileListItem::File { text: p.to_string(), path: p.to_string() }
}

fn rows(items: &[FileListItem]) -> Vec<(bool, String, Option<String>)> {
    items
        .iter()
        .map(|it| match it {
            FileListItem::Section { text } => (false, text.clone(), None),
            FileListItem::File { text, path } => (true, text.clone(), Some(path.clone())),
        })
        .collect()
}

#[test]
fn files_are_grouped_under_their_directories() {
    let list = vec![
        file("src/main.rs"),
        file("src/ui/mod.rs"),
        file("src/ui/layout.rs"),
        file("README.md"),
        file("docs/guide/intro.md"),
        file("Cargo.toml"),
    ];
    let tree = file_list_to_file_tree(list);
    let f = |t: &str, p: &str| (true, t.to_string(), Some(p.to_string()));
    let s = |t: &str| (false, t.to_string(), None);
    assert_eq!(
        rows(&tree),
        vec![
            f("Cargo.toml", "Cargo.toml"),
            f("README.md", "README.md"),
            s("docs/guide/"),
            f("  intro.md", "docs/guide/intro.md"),
            s("src/"),
            f("  main.rs", "src/main.rs"),
            s("  ui/"),
            f("    layout.rs", "src/ui/layout.rs"),
            f("    mod.rs", "src/ui/mod.rs"),
        ]
    );
}

#[test]
fn empty_list_gives_empty_tree() {
    assert!(file_list_to_file_tree(Vec::new()).is_empty());
}

fn item(label: &str, command: &str) -> ListPickerItem {
    ListPickerItem {
        kind: ListPickerItemKind::Item,
        label: label.to_string(),
        command: command.to_string(),
        filter_text: label.to_string(),
    }
}

#[test]
fn picker_items_keep_their_commands() {
    let list = vec![item("a/b/x", "edit 1"), item("a/b/x", "edit 2"), item("c", "edit 3")];
    let tree = list_picker::file_list_to_file_tree(list);
    let got: Vec<(ListPickerItemKind, &str, &str, &str)> = tree
        .iter()
        .map(|it| (it.kind, it.label.as_str(), it.command.as_str(), it.filter_text.as_str()))
        .collect();
    assert_eq!(
        got,
        vec![
            (ListPickerItemKind::Item, "c", "edit 3", "c"),
            (ListPickerItemKind::Section, "a/b/", "", "a/"),
            // Of two items of one path, the later one stays.
            (ListPickerItemKind::Item, "  x", "edit 2", "a/b/x"),
        ]
    );
}

#[test]
fn every_path_comes_out_once_with_its_name_last() {
    let paths = ["a/x.rs", "a/b/y.rs", "c.rs", "a/b/z.rs"];
    let tree = file_list_to_file_tree(paths.iter().map(|p| file(p)).collect());
    let headings = tree.iter().filter(|it| matches!(it, FileListItem::Section { .. })).count();
    assert_eq!(tree.len(), paths.len() + headings);
    for p in paths {
        let found: Vec<&FileListItem> = tree
            .iter()
            .filter(|it| matches!(it, FileListItem::File { path, .. } if path == p))
            .collect();
        assert_eq!(found.len(), 1);
        if let FileListItem::File { text, .. } = found[0] {
            assert!(text.ends_with(p.rsplit('/').next().unwrap()));
        }
    }
}
