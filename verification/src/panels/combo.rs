//! The panel that shows the keys of a combo being typed.

use vstd::prelude::*;

use crate::ui::layout::Rect;

verus! {

/// The panel that shows the keys of a combo being typed.
pub struct Combo {
    rect: Rect,
}

impl Default for Combo {
    fn default() -> (r: Self)
        ensures
            r.rect_spec() == (Rect { x: 0, y: 0, width: 1, height: 1 }),
    {
        Combo { rect: Rect::default() }
    }
}

impl Combo {
    /// Where the panel is.
    pub closed spec fn rect_spec(self) -> Rect {
        self.rect
    }

    /// Where the panel is.
    pub fn rect(&self) -> (r: Rect)
        ensures
            r == self.rect_spec(),
    {
        self.rect
    }

    /// Places the panel at `rect`.
    pub fn set_rect(&mut self, rect: Rect)
        ensures
            final(self).rect_spec() == rect,
    {
        self.rect = rect;
    }
}

} // verus!
