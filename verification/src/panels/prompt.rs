//! The panel where commands are typed.

use vstd::prelude::*;

use crate::state::resources::{panel_view_closed, panel_view_opened, Resources};

use crate::panels::{LayoutInfo, LayoutPlace};

use crate::ui::layout::Rect;
use crate::slotmap::Handle;

verus! {

/// The panel where commands are typed.
pub struct Prompt {
    rect: Rect,
    view_handle: Option<Handle>,
}

impl Default for Prompt {
    fn default() -> (r: Self)
        ensures
            r.rect_spec() == (Rect { x: 0, y: 0, width: 1, height: 1 }),
    {
        Prompt { rect: Rect::default(), view_handle: None }
    }
}

impl Prompt {
    /// Where the panel is.
    pub closed spec fn rect_spec(self) -> Rect {
        self.rect
    }

    /// Where the panel is.
    pub fn rect(&self) -> (r: Rect)
        ensures
            r == self.rect_spec(),
    {
        self.rect
    }

    /// Places the panel at `rect`.
    pub fn set_rect(&mut self, rect: Rect)
        ensures
            final(self).rect_spec() == rect,
    {
        self.rect = rect;
    }

    /// A row at the bottom of the editor.
    pub fn layout_info(&self) -> (r: LayoutInfo)
        ensures
            r.place == LayoutPlace::South,
            r.width.is_none(),
            r.height == Some(1i32),
            r.padding.is_none(),
    {
        LayoutInfo { place: LayoutPlace::South, width: None, height: Some(1), padding: None }
    }

    /// The view the panel shows while it has the focus.
    pub closed spec fn shown_view(self) -> Option<Handle> {
        self.view_handle
    }

    /// The view the panel shows while it has the focus.
    pub fn view(&self) -> (r: Option<Handle>)
        ensures
            r == self.shown_view(),
    {
        self.view_handle
    }

    /// Gives the panel an empty buffer and a view of it.
    pub fn on_focus(&mut self, resources: &mut Resources)
        requires
            old(resources).wf(),
            old(resources).buffers.next_id_spec() < u64::MAX,
            old(resources).views.next_id_spec() < u64::MAX,
        ensures
            final(self).shown_view() matches Some(v) && panel_view_opened(*old(resources), *final(resources), v),
            final(self).rect_spec() == old(self).rect_spec(),
    {
        let view = resources.open_panel_view();
        self.view_handle = Some(view);
    }

    /// Removes the panel's view and the buffer it shows.
    pub fn on_unfocus(&mut self, resources: &mut Resources)
        requires
            old(resources).wf(),
            old(self).shown_view() matches Some(v) ==> old(resources).views.contains(v),
        ensures
            final(self).shown_view().is_none(),
            final(self).rect_spec() == old(self).rect_spec(),
            match old(self).shown_view() {
                Some(v) => panel_view_closed(*old(resources), *final(resources), v),
                None => *final(resources) == *old(resources),
            },
    {
        let view_handle = match self.view_handle {
            Some(v) => v,
            None => {
                return;
            },
        };
        resources.close_panel_view(view_handle);
        self.view_handle = None;
    }
}

} // verus!
