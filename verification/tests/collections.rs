use ayed::buffer::char_string::CharString;
use ayed::config::insert_order_map::InsertOrderMap;
use ayed::panels::file_picker::{FileListItem, FilePickerState};
use ayed::slotmap::SlotMap;
use ayed::unicode::trim;

#[test]
fn char_string_edits() {
    let mut s = CharString::from_str("héllo");
    assert_eq!(s.len(), 5);
    assert_eq!(s.get(1), Some('é'));
    s.insert(0, '¡');
    s.push('!');
    assert_eq!(s.to_string(), "¡héllo!");
    assert_eq!(s.remove(1), 'h');
    assert_eq!(s.pop(), Some('!'));
    assert_eq!(s.drain(0, 2), vec!['¡', 'é']);
    assert_eq!(s.to_string(), "llo");
    assert_eq!(s.find(|c| c == 'o'), Some(2));
    assert_eq!(s.find(|c| c == 'z'), None);
}

#[test]
fn insert_order_map_keeps_insertion_order() {
    let mut m: InsertOrderMap<i32> = InsertOrderMap::new();
    assert_eq!(m.insert("b".to_string(), 1), None);
    assert_eq!(m.insert("a".to_string(), 2), None);
    assert_eq!(m.insert("b".to_string(), 3), Some(1));
    let keys: Vec<&str> = m.iter().iter().map(|(k, _)| k.as_str()).collect();
    assert_eq!(keys, vec!["a", "b"]);
    assert_eq!(m.get("b"), Some(&3));
    *m.get_mut("a").unwrap() = 5;
    assert_eq!(m.remove("a"), Some(5));
    assert!(!m.contains_key("a"));
    assert_eq!(m.remove("a"), None);
}

#[test]
fn slot_map_handles() {
    let mut m: SlotMap<&str> = SlotMap::new();
    let a = m.insert("a");
    let b = m.insert("b");
    assert_ne!(a, b);
    assert_eq!(m.get(a), Some(&"a"));
    assert_eq!(m.remove(a), Some("a"));
    assert_eq!(m.get(a), None);
    assert_eq!(m.get(b), Some(&"b"));
    // A removed handle is not given out again.
    let c = m.insert("c");
    assert_ne!(c, a);
}

#[test]
fn trim_removes_unicode_whitespace() {
    assert_eq!(trim("\u{3000} hi there\t\n"), "hi there");
    assert_eq!(trim("   "), "");
    assert_eq!(trim("x"), "x");
}

fn file(p: &str) -> FileListItem {
    FileListItem::File { text: p.to_string(), path: p.to_string() }
}

fn section(t: &str) -> FileListItem {
    FileListItem::Section { text: t.to_string() }
}

#[test]
fn file_picker_selection_skips_sections_and_wraps() {
    let mut st = FilePickerState {
        list_items: vec![section("src/"), file("a.rs"), section("doc/"), file("b.md")],
        selected_item: 1,
    };
    st.select_next();
    assert_eq!(st.selected_item, 3);
    st.select_next();
    assert_eq!(st.selected_item, 1);
    st.select_previous();
    assert_eq!(st.selected_item, 3);
    assert_eq!(st.list_items[3].path(), Some("b.md"));
    assert_eq!(st.list_items[0].path(), None);
    assert_eq!(st.list_items[0].text(), "src/");
}

#[test]
fn char_string_from_chars() {
    let s = CharString::from_iter(vec!['a', 'ß', 'c']);
    assert_eq!(s.len(), 3);
    assert_eq!(s.to_string(), "aßc");
}
