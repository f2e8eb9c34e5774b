//! The panel that lists files to open.

use vstd::prelude::*;

use crate::panels::file_tree::{
    file_tree_rows, file_tree_spec, names_view, path_components, row_view, rows_view, section_count, sources_below, TreeRow,
    TreeRowView,
};
use crate::panels::{select_cyclic, selected_after};
use crate::text::to_owned_string;
use crate::ui::layout::Rect;

verus! {

/// The panel that lists files to open.
pub struct FilePicker {
    rect: Rect,
}

impl Default for FilePicker {
    fn default() -> (r: Self)
        ensures
            r.rect_spec() == (Rect { x: 0, y: 0, width: 1, height: 1 }),
    {
        FilePicker { rect: Rect::default() }
    }
}

impl FilePicker {
    /// Where the panel is.
    pub closed spec fn rect_spec(self) -> Rect {
        self.rect
    }

    /// Where the panel is.
    pub fn rect(&self) -> (r: Rect)
        ensures
            r == self.rect_spec(),
    {
        self.rect
    }

    /// Places the panel at `rect`.
    pub fn set_rect(&mut self, rect: Rect)
        ensures
            final(self).rect_spec() == rect,
    {
        self.rect = rect;
    }
}


/// An entry of the file list: a section heading, or a file with its path.
pub enum FileListItem {
    Section { text: String },
    File { text: String, path: String },
}

impl FileListItem {
    /// The text shown for the entry.
    pub fn text(&self) -> (r: &str)
        ensures
            r@ == match self {
                FileListItem::Section { text } => text@,
                FileListItem::File { text, .. } => text@,
            },
    {
        match self {
            FileListItem::Section { text } => text.as_str(),
            FileListItem::File { text, .. } => text.as_str(),
        }
    }

    /// The path of a file entry.
    pub fn path(&self) -> (r: Option<&str>)
        ensures
            match self {
                FileListItem::Section { .. } => r.is_none(),
                FileListItem::File { path, .. } => r.is_some() && r->Some_0@ == path@,
            },
    {
        match self {
            FileListItem::Section { .. } => None,
            FileListItem::File { path, .. } => Some(path.as_str()),
        }
    }
}

/// The entries of the file picker and the one selected.
pub struct FilePickerState {
    pub list_items: Vec<FileListItem>,
    pub selected_item: usize,
}

/// Which entries can be selected: the files.
pub open spec fn selectable_files(items: Seq<FileListItem>) -> Seq<bool> {
    items.map_values(|it: FileListItem| it is File)
}

impl FilePickerState {
    /// Whether moving the selection is defined: the counts fit in an `i32`,
    /// and the selection is on an entry or some entry is a file.
    pub open spec fn can_move(self) -> bool {
        &&& self.list_items@.len() <= i32::MAX
        &&& self.selected_item <= i32::MAX
        &&& (self.selected_item < self.list_items@.len() || exists|j: int|
            0 <= j < self.list_items@.len() && selectable_files(self.list_items@)[j])
    }

    fn select_impl(&mut self, direction: i32)
        requires
            old(self).can_move(),
            direction == 1 || direction == -1,
        ensures
            final(self).selected_item == selected_after(
                selectable_files(old(self).list_items@),
                old(self).selected_item as int,
                direction as int,
            ),
            final(self).list_items == old(self).list_items,
    {
        let mut ok: Vec<bool> = Vec::new();
        let mut i: usize = 0;
        while i < self.list_items.len()
            invariant
                i <= self.list_items@.len(),
                ok@ == selectable_files(self.list_items@).take(i as int),
            decreases self.list_items@.len() - i,
        {
            let is_file = match &self.list_items[i] {
                FileListItem::File { .. } => true,
                FileListItem::Section { .. } => false,
            };
            ok.push(is_file);
            i += 1;
            proof {
                assert(ok@ =~= selectable_files(self.list_items@).take(i as int));
            }
        }
        proof {
            assert(ok@ =~= selectable_files(self.list_items@));
        }
        self.selected_item = select_cyclic(&ok, self.selected_item, direction);
    }

    /// Selects the next file, wrapping around.
    pub fn select_next(&mut self)
        requires
            old(self).can_move(),
        ensures
            final(self).selected_item == selected_after(
                selectable_files(old(self).list_items@),
                old(self).selected_item as int,
                1,
            ),
            final(self).list_items == old(self).list_items,
    {
        self.select_impl(1);
    }

    /// Selects the previous file, wrapping around.
    pub fn select_previous(&mut self)
        requires
            old(self).can_move(),
        ensures
            final(self).selected_item == selected_after(
                selectable_files(old(self).list_items@),
                old(self).selected_item as int,
                -1,
            ),
            final(self).list_items == old(self).list_items,
    {
        self.select_impl(-1);
    }

    /// Selects the first entry, or, when it is a section, the next file.
    pub fn reselect(&mut self)
        requires
            old(self).list_items@.len() <= i32::MAX,
        ensures
            final(self).selected_item == (if old(self).list_items@.len() > 0 && old(self).list_items@[0] is Section {
                selected_after(selectable_files(old(self).list_items@), 0, 1)
            } else {
                0
            }),
            final(self).list_items == old(self).list_items,
    {
        self.selected_item = 0;
        if self.list_items.len() == 0 {
            return;
        }
        let first_is_section = match &self.list_items[0] {
            FileListItem::Section { .. } => true,
            FileListItem::File { .. } => false,
        };
        if first_is_section {
            self.select_next();
        }
    }
}

/// The paths of the files of `list`.
pub open spec fn file_paths(list: Seq<FileListItem>) -> Seq<Seq<char>> {
    list.map_values(
        |it: FileListItem|
            match it {
                FileListItem::File { path, .. } => path@,
                FileListItem::Section { text } => text@,
            },
    )
}

/// The entry that the tree row `row` of the files `list` stands for.
pub open spec fn tree_entry_matches(row: TreeRowView, item: FileListItem, list: Seq<FileListItem>) -> bool {
    match row {
        TreeRowView::Section { label, .. } => item matches FileListItem::Section { text } && text@ == label,
        TreeRowView::Item { label, source } => item matches FileListItem::File { text, path } && text@ == label && 0
            <= source < list.len() && path@ == file_paths(list)[source],
    }
}

/// The number of headings in `items`.
pub open spec fn heading_count(items: Seq<FileListItem>) -> int
    decreases items.len(),
{
    if items.len() == 0 {
        0
    } else {
        heading_count(items.drop_last()) + if items.last() is Section {
            1int
        } else {
            0int
        }
    }
}

proof fn lemma_heading_count(rows: Seq<TreeRowView>, items: Seq<FileListItem>, list: Seq<FileListItem>)
    requires
        rows.len() == items.len(),
        forall|j: int| 0 <= j < items.len() ==> tree_entry_matches(#[trigger] rows[j], items[j], list),
    ensures
        heading_count(items) == section_count(rows),
    decreases items.len(),
{
    if items.len() > 0 {
        assert forall|j: int| 0 <= j < items.drop_last().len() implies tree_entry_matches(
            #[trigger] rows.drop_last()[j],
            items.drop_last()[j],
            list,
        ) by {
            assert(rows.drop_last()[j] == rows[j]);
            assert(items.drop_last()[j] == items[j]);
        }
        lemma_heading_count(rows.drop_last(), items.drop_last(), list);
        assert(tree_entry_matches(rows[rows.len() - 1], items[items.len() - 1], list));
    }
}

/// The files of `list` laid out as a tree (see `tree_rows`): a heading for
/// each directory that holds files, then its files, by name and indented.
pub fn file_list_to_file_tree(list: Vec<FileListItem>) -> (r: Vec<FileListItem>)
    requires
        forall|i: int| 0 <= i < list@.len() ==> (#[trigger] list@[i]) is File,
        forall|i: int| 0 <= i < list@.len() ==> (#[trigger] file_paths(list@)[i]).len() < 0x3fff_fff0,
    ensures
        r@.len() == file_tree_spec(path_components(file_paths(list@))).len(),
        forall|j: int|
            0 <= j < r@.len() ==> tree_entry_matches(
                #[trigger] file_tree_spec(path_components(file_paths(list@)))[j],
                r@[j],
                list@,
            ),
            forall|i: int|
                0 <= i < r@.len() && #[trigger] r@[i] is Section ==> i + 1 < r@.len() && r@[i + 1] is File,
        forall|j: int|
            0 <= j < r@.len() ==> (#[trigger] r@[j] matches FileListItem::File { text, path } ==> {
                let name = crate::panels::file_tree::components(path@).last();
                &&& text@.len() >= name.len()
                &&& text@.skip(text@.len() - name.len()) == name
            }),
        (forall|a: int, b: int| 0 <= a < b < list@.len() ==> file_paths(list@)[a] != file_paths(list@)[b]) ==> forall|
            i: int,
        |
            0 <= i < list@.len() ==> exists|j: int|
                0 <= j < r@.len() && (#[trigger] r@[j] matches FileListItem::File { path, .. } && path@
                    == #[trigger] file_paths(list@)[i]),
        (forall|a: int, b: int| 0 <= a < b < list@.len() ==> file_paths(list@)[a] != file_paths(list@)[b]) ==> r@.len()
            == list@.len() + heading_count(r@),
{
    let mut paths: Vec<String> = Vec::new();
    let mut i: usize = 0;
    while i < list.len()
        invariant
            i <= list@.len(),
            names_view(paths@) == file_paths(list@).take(i as int),
        decreases list@.len() - i,
    {
        let p = match &list[i] {
            FileListItem::File { path, .. } => to_owned_string(path.as_str()),
            FileListItem::Section { text } => to_owned_string(text.as_str()),
        };
        let ghost b = paths@;
        paths.push(p);
        proof {
            assert(names_view(paths@) =~= names_view(b).push(p@));
            assert(names_view(paths@) =~= file_paths(list@).take(i as int + 1));
        }
        i += 1;
    }
    proof {
        assert(names_view(paths@) =~= file_paths(list@));
        assert forall|i: int| 0 <= i < paths@.len() implies (#[trigger] paths@[i])@.len() < 0x3fff_fff0 by {
            assert(names_view(paths@)[i] == paths@[i]@);
        }
    }
    let rows = file_tree_rows(&paths);
    let ghost spec_rows = file_tree_spec(path_components(file_paths(list@)));
    let mut out: Vec<FileListItem> = Vec::new();
    let mut j: usize = 0;
    while j < rows.len()
        invariant
            j <= rows@.len(),
            spec_rows == rows_view(rows@),
            names_view(paths@) == file_paths(list@),
            sources_below(rows@, paths@.len() as int),
            list@.len() == paths@.len(),
            out@.len() == j,
            forall|q: int| 0 <= q < j ==> tree_entry_matches(#[trigger] spec_rows[q], out@[q], list@),
        decreases rows@.len() - j,
    {
        let item = match &rows[j] {
            TreeRow::Section { label, .. } => FileListItem::Section { text: to_owned_string(label.as_str()) },
            TreeRow::Item { label, source } => {
                let path = to_owned_string(paths[*source].as_str());
                FileListItem::File { text: to_owned_string(label.as_str()), path }
            },
        };
        proof {
            assert(spec_rows[j as int] == row_view(rows@[j as int]));
            match rows@[j as int] {
                TreeRow::Item { source, .. } => {
                    assert(names_view(paths@)[source as int] == paths@[source as int]@);
                },
                _ => {},
            }
        }
        out.push(item);
        j += 1;
    }
    proof {
        crate::panels::file_tree::lemma_tree_rows_sections(
            path_components(file_paths(list@)),
            Seq::empty(),
            Seq::empty(),
            0,
        );
        let cs = path_components(file_paths(list@));
        assert(crate::panels::file_tree::items_named(spec_rows, cs));
        if forall|a: int, b: int| 0 <= a < b < list@.len() ==> file_paths(list@)[a] != file_paths(list@)[b] {
            assert forall|a: int, b: int| 0 <= a < b < paths@.len() implies paths@[a]@ != paths@[b]@ by {
                assert(names_view(paths@)[a] == paths@[a]@);
                assert(names_view(paths@)[b] == paths@[b]@);
            }
            assert forall|i: int| 0 <= i < list@.len() implies exists|j: int|
                0 <= j < out@.len() && (#[trigger] out@[j] matches FileListItem::File { path, .. } && path@
                    == #[trigger] file_paths(list@)[i]) by {
                assert(crate::panels::file_tree::has_item_for(spec_rows, i));
                let q = choose|q: int| 0 <= q < spec_rows.len() && #[trigger] spec_rows[q] is Item && spec_rows[q]->source == i;
                assert(tree_entry_matches(spec_rows[q], out@[q], list@));
            }
            lemma_heading_count(spec_rows, out@, list@);
        }
        assert forall|j: int| 0 <= j < out@.len() implies (#[trigger] out@[j] matches FileListItem::File { text, path } ==> {
            let name = crate::panels::file_tree::components(path@).last();
            &&& text@.len() >= name.len()
            &&& text@.skip(text@.len() - name.len()) == name
        }) by {
            assert(tree_entry_matches(spec_rows[j], out@[j], list@));
            match spec_rows[j] {
                TreeRowView::Item { label, source } => {
                    assert(cs[source] == crate::panels::file_tree::components(file_paths(list@)[source]));
                },
                _ => {},
            }
        }
        assert forall|i: int| 0 <= i < out@.len() && #[trigger] out@[i] is Section implies i + 1 < out@.len()
            && out@[i + 1] is File by {
            assert(tree_entry_matches(spec_rows[i], out@[i], list@));
            assert(spec_rows[i] is Section);
            assert(tree_entry_matches(spec_rows[i + 1], out@[i + 1], list@));
        }
    }
    out
}

} // verus!
