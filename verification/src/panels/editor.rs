//! The panel that shows a view of a buffer.

use vstd::prelude::*;

use crate::slotmap::Handle;
use crate::ui::layout::Rect;

verus! {

/// The panel that shows a view of a buffer.
pub struct Editor {
    view: Option<Handle>,
    rect: Rect,
}

impl Default for Editor {
    fn default() -> (r: Self)
        ensures
            r.shown_view().is_none(),
            r.rect_spec() == (Rect { x: 0, y: 0, width: 1, height: 1 }),
    {
        Editor { view: None, rect: Rect::default() }
    }
}

impl Editor {
    /// The view shown.
    pub closed spec fn shown_view(self) -> Option<Handle> {
        self.view
    }

    /// Where the panel is.
    pub closed spec fn rect_spec(self) -> Rect {
        self.rect
    }

    /// An editor showing `view`, at the default place.
    pub fn with_view(view: Handle) -> (r: Self)
        ensures
            r.shown_view() == Some(view),
            r.rect_spec() == (Rect { x: 0, y: 0, width: 1, height: 1 }),
    {
        Self { view: Some(view), rect: Rect::default() }
    }

    /// Where the panel is.
    pub fn rect(&self) -> (r: Rect)
        ensures
            r == self.rect_spec(),
    {
        self.rect
    }

    /// Places the panel at `rect`.
    pub fn set_rect(&mut self, rect: Rect)
        ensures
            final(self).rect_spec() == rect,
            final(self).shown_view() == old(self).shown_view(),
    {
        self.rect = rect;
    }
}

} // verus!
