//! The panel that shows the status of the editor.

use vstd::prelude::*;

use crate::panels::{LayoutInfo, LayoutPlace};

use crate::ui::layout::Rect;
use crate::slotmap::Handle;

verus! {

/// The panel that shows the status of the editor.
pub struct StatusBar {
    rect: Rect,
    view_handle: Option<Handle>,
}

impl Default for StatusBar {
    fn default() -> (r: Self)
        ensures
            r.rect_spec() == (Rect { x: 0, y: 0, width: 1, height: 1 }),
    {
        StatusBar { rect: Rect::default(), view_handle: None }
    }
}

impl StatusBar {
    /// Where the panel is.
    pub closed spec fn rect_spec(self) -> Rect {
        self.rect
    }

    /// Where the panel is.
    pub fn rect(&self) -> (r: Rect)
        ensures
            r == self.rect_spec(),
    {
        self.rect
    }

    /// Places the panel at `rect`.
    pub fn set_rect(&mut self, rect: Rect)
        ensures
            final(self).rect_spec() == rect,
    {
        self.rect = rect;
    }

    /// A row at the bottom of the editor.
    pub fn layout_info(&self) -> (r: LayoutInfo)
        ensures
            r.place == LayoutPlace::South,
            r.width.is_none(),
            r.height == Some(1i32),
            r.padding.is_none(),
    {
        LayoutInfo { place: LayoutPlace::South, width: None, height: Some(1), padding: None }
    }
}

} // verus!
