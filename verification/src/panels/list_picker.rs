//! The panel that lists items to pick.

use vstd::prelude::*;

use crate::state::resources::{panel_view_closed, panel_view_opened, Resources};

use crate::panels::{LayoutInfo, LayoutPlace, Sides};

use crate::panels::file_tree::{
    file_tree_rows, file_tree_spec, names_view, path_components, row_view, rows_view, sources_below, TreeRow, TreeRowView,
};
use crate::panels::{select_cyclic, selected_after};
use crate::text::to_owned_string;
use crate::ui::layout::Rect;
use crate::slotmap::Handle;

verus! {

/// The panel that lists items to pick.
pub struct ListPicker {
    rect: Rect,
    view_handle: Option<Handle>,
}

impl Default for ListPicker {
    fn default() -> (r: Self)
        ensures
            r.rect_spec() == (Rect { x: 0, y: 0, width: 1, height: 1 }),
    {
        ListPicker { rect: Rect::default(), view_handle: None }
    }
}

impl ListPicker {
    /// Where the panel is.
    pub closed spec fn rect_spec(self) -> Rect {
        self.rect
    }

    /// Places the panel at `rect`.
    pub fn set_rect(&mut self, rect: Rect)
        ensures
            final(self).rect_spec() == rect,
    {
        self.rect = rect;
    }

    /// Centered, two rows and six columns away from the edges.
    pub fn layout_info(&self) -> (r: LayoutInfo)
        ensures
            r.place == LayoutPlace::FloatCenter,
            r.width.is_none(),
            r.height.is_none(),
            r.padding matches Some(p) && p.top == 2 && p.bottom == 2 && p.left == 6 && p.right == 6,
    {
        LayoutInfo {
            place: LayoutPlace::FloatCenter,
            width: None,
            height: None,
            padding: Some(Sides { top: 2, bottom: 2, left: 6, right: 6 }),
        }
    }

    /// The view the panel shows while it has the focus.
    pub closed spec fn shown_view(self) -> Option<Handle> {
        self.view_handle
    }

    /// The view the panel shows while it has the focus.
    pub fn view(&self) -> (r: Option<Handle>)
        ensures
            r == self.shown_view(),
    {
        self.view_handle
    }

    /// Gives the panel an empty buffer and a view of it.
    pub fn on_focus(&mut self, resources: &mut Resources)
        requires
            old(resources).wf(),
            old(resources).buffers.next_id_spec() < u64::MAX,
            old(resources).views.next_id_spec() < u64::MAX,
        ensures
            final(self).shown_view() matches Some(v) && panel_view_opened(*old(resources), *final(resources), v),
            final(self).rect_spec() == old(self).rect_spec(),
    {
        let view = resources.open_panel_view();
        self.view_handle = Some(view);
    }

    /// Removes the panel's view and the buffer it shows.
    pub fn on_unfocus(&mut self, resources: &mut Resources)
        requires
            old(resources).wf(),
            old(self).shown_view() matches Some(v) ==> old(resources).views.contains(v),
        ensures
            final(self).shown_view().is_none(),
            final(self).rect_spec() == old(self).rect_spec(),
            match old(self).shown_view() {
                Some(v) => panel_view_closed(*old(resources), *final(resources), v),
                None => *final(resources) == *old(resources),
            },
    {
        let view_handle = match self.view_handle {
            Some(v) => v,
            None => {
                return;
            },
        };
        resources.close_panel_view(view_handle);
        self.view_handle = None;
    }
}


/// The items of a list picker, those the filter keeps, and the one selected.
pub struct ListPickerState {
    /// All items.
    pub raw_items: Vec<ListPickerItem>,
    /// The items that the filter keeps.
    pub items: Vec<ListPickerItem>,
    pub selected_item: usize,
}

/// An item of a list picker: a section heading, or an item that runs a command.
pub struct ListPickerItem {
    pub kind: ListPickerItemKind,
    pub label: String,
    pub command: String,
    pub filter_text: String,
}

/// Whether an item is a section heading or an item that can be selected.
#[derive(Debug, Clone, Copy, PartialEq, Eq, Structural)]
pub enum ListPickerItemKind {
    Section,
    Item,
}

/// Which items can be selected.
pub open spec fn selectable_items(items: Seq<ListPickerItem>) -> Seq<bool> {
    items.map_values(|it: ListPickerItem| it.kind == ListPickerItemKind::Item)
}

impl ListPickerState {
    /// Whether moving the selection is defined: the counts fit in an `i32`,
    /// and the selection is on an item or some item can be selected.
    pub open spec fn can_move(self) -> bool {
        &&& self.items@.len() <= i32::MAX
        &&& self.selected_item <= i32::MAX
        &&& (self.selected_item < self.items@.len() || exists|j: int|
            0 <= j < self.items@.len() && selectable_items(self.items@)[j])
    }

    fn select_impl(&mut self, direction: i32)
        requires
            old(self).can_move(),
            direction == 1 || direction == -1,
        ensures
            final(self).selected_item == selected_after(
                selectable_items(old(self).items@),
                old(self).selected_item as int,
                direction as int,
            ),
            final(self).items == old(self).items,
            final(self).raw_items == old(self).raw_items,
    {
        let mut ok: Vec<bool> = Vec::new();
        let mut i: usize = 0;
        while i < self.items.len()
            invariant
                i <= self.items@.len(),
                ok@ == selectable_items(self.items@).take(i as int),
            decreases self.items@.len() - i,
        {
            ok.push(self.items[i].kind == ListPickerItemKind::Item);
            i += 1;
            proof {
                assert(ok@ =~= selectable_items(self.items@).take(i as int));
            }
        }
        proof {
            assert(ok@ =~= selectable_items(self.items@));
        }
        self.selected_item = select_cyclic(&ok, self.selected_item, direction);
    }

    /// Selects the next item that can be selected, wrapping around.
    pub fn select_next(&mut self)
        requires
            old(self).can_move(),
        ensures
            final(self).selected_item == selected_after(
                selectable_items(old(self).items@),
                old(self).selected_item as int,
                1,
            ),
            final(self).items == old(self).items,
            final(self).raw_items == old(self).raw_items,
    {
        self.select_impl(1);
    }

    /// Selects the previous item that can be selected, wrapping around.
    pub fn select_previous(&mut self)
        requires
            old(self).can_move(),
        ensures
            final(self).selected_item == selected_after(
                selectable_items(old(self).items@),
                old(self).selected_item as int,
                -1,
            ),
            final(self).items == old(self).items,
            final(self).raw_items == old(self).raw_items,
    {
        self.select_impl(-1);
    }

    /// Selects the first item, or, when it is a section, the next that can
    /// be selected.
    pub fn reselect(&mut self)
        requires
            old(self).items@.len() <= i32::MAX,
        ensures
            final(self).selected_item == (if old(self).items@.len() > 0
                && old(self).items@[0].kind == ListPickerItemKind::Section {
                selected_after(selectable_items(old(self).items@), 0, 1)
            } else {
                0
            }),
            final(self).items == old(self).items,
            final(self).raw_items == old(self).raw_items,
    {
        self.selected_item = 0;
        if self.items.len() == 0 {
            return;
        }
        if self.items[0].kind == ListPickerItemKind::Section {
            self.select_next();
        }
    }
}

/// The labels of the items of `list`.
pub open spec fn item_labels(list: Seq<ListPickerItem>) -> Seq<Seq<char>> {
    list.map_values(|it: ListPickerItem| it.label@)
}

/// Whether `item` is the entry that the tree row `row` of the items `list` stands for.
pub open spec fn tree_item_matches(row: TreeRowView, item: ListPickerItem, list: Seq<ListPickerItem>) -> bool {
    match row {
        TreeRowView::Section { label, dir } => {
            &&& item.kind == ListPickerItemKind::Section
            &&& item.label@ == label
            &&& item.command@ == Seq::<char>::empty()
            &&& item.filter_text@ == dir
        },
        TreeRowView::Item { label, source } => {
            &&& item.kind == ListPickerItemKind::Item
            &&& item.label@ == label
            &&& 0 <= source < list.len()
            &&& item.command@ == list[source].command@
            &&& item.filter_text@ == list[source].filter_text@
        },
    }
}

/// The items of `list`, whose labels are file paths, laid out as a tree
/// (see `tree_rows`): a heading for each directory that holds files, then
/// its files, by name and indented, each keeping its command.
pub fn file_list_to_file_tree(list: Vec<ListPickerItem>) -> (r: Vec<ListPickerItem>)
    requires
        forall|i: int| 0 <= i < list@.len() ==> (#[trigger] item_labels(list@)[i]).len() < 0x3fff_fff0,
    ensures
        r@.len() == file_tree_spec(path_components(item_labels(list@))).len(),
        forall|j: int|
            0 <= j < r@.len() ==> tree_item_matches(
                #[trigger] file_tree_spec(path_components(item_labels(list@)))[j],
                r@[j],
                list@,
            ),
            forall|i: int|
                0 <= i < r@.len() && (#[trigger] r@[i]).kind == ListPickerItemKind::Section ==> i + 1 < r@.len()
                    && r@[i + 1].kind == ListPickerItemKind::Item,
{
    let mut paths: Vec<String> = Vec::new();
    let mut i: usize = 0;
    while i < list.len()
        invariant
            i <= list@.len(),
            names_view(paths@) == item_labels(list@).take(i as int),
        decreases list@.len() - i,
    {
        let p = to_owned_string(list[i].label.as_str());
        let ghost b = paths@;
        paths.push(p);
        proof {
            assert(names_view(paths@) =~= names_view(b).push(p@));
            assert(names_view(paths@) =~= item_labels(list@).take(i as int + 1));
        }
        i += 1;
    }
    proof {
        assert(names_view(paths@) =~= item_labels(list@));
        assert forall|i: int| 0 <= i < paths@.len() implies (#[trigger] paths@[i])@.len() < 0x3fff_fff0 by {
            assert(names_view(paths@)[i] == paths@[i]@);
        }
    }
    let rows = file_tree_rows(&paths);
    let ghost spec_rows = file_tree_spec(path_components(item_labels(list@)));
    let mut out: Vec<ListPickerItem> = Vec::new();
    let mut j: usize = 0;
    while j < rows.len()
        invariant
            j <= rows@.len(),
            spec_rows == rows_view(rows@),
            sources_below(rows@, paths@.len() as int),
            list@.len() == paths@.len(),
            out@.len() == j,
            forall|q: int| 0 <= q < j ==> tree_item_matches(#[trigger] spec_rows[q], out@[q], list@),
        decreases rows@.len() - j,
    {
        let item = match &rows[j] {
            TreeRow::Section { label, dir } => ListPickerItem {
                kind: ListPickerItemKind::Section,
                label: to_owned_string(label.as_str()),
                command: String::new(),
                filter_text: to_owned_string(dir.as_str()),
            },
            TreeRow::Item { label, source } => ListPickerItem {
                kind: ListPickerItemKind::Item,
                label: to_owned_string(label.as_str()),
                command: to_owned_string(list[*source].command.as_str()),
                filter_text: to_owned_string(list[*source].filter_text.as_str()),
            },
        };
        proof {
            assert(spec_rows[j as int] == row_view(rows@[j as int]));
        }
        out.push(item);
        j += 1;
    }
    proof {
        let rows = file_tree_spec(path_components(item_labels(list@)));
        crate::panels::file_tree::lemma_tree_rows_sections(path_components(item_labels(list@)), Seq::empty(), Seq::empty(), 0);
        assert forall|i: int|
            0 <= i < out@.len() && (#[trigger] out@[i]).kind == ListPickerItemKind::Section implies i + 1 < out@.len()
                && out@[i + 1].kind == ListPickerItemKind::Item by {
            assert(tree_item_matches(rows[i], out@[i], list@));
            assert(rows[i] is Section);
            assert(tree_item_matches(rows[i + 1], out@[i + 1], list@));
        }
    }
    out
}

} // verus!
