//! The panel that shows information about what is under the cursor.

use vstd::prelude::*;

use crate::ui::layout::Rect;

verus! {

/// The panel that shows information about what is under the cursor.
pub struct HoverInfo {
    rect: Rect,
}

impl Default for HoverInfo {
    fn default() -> (r: Self)
        ensures
            r.rect_spec() == (Rect { x: 0, y: 0, width: 1, height: 1 }),
    {
        HoverInfo { rect: Rect::default() }
    }
}

impl HoverInfo {
    /// Where the panel is.
    pub closed spec fn rect_spec(self) -> Rect {
        self.rect
    }

    /// Places the panel at `rect`.
    pub fn set_rect(&mut self, rect: Rect)
        ensures
            final(self).rect_spec() == rect,
    {
        self.rect = rect;
    }
}

} // verus!
