//! The panel that shows the modeline.

use vstd::prelude::*;

use crate::ui::layout::Rect;
use crate::ui::style::{Color, Style};

verus! {

/// The panel that shows the modeline.
pub struct Modeline {
    rect: Rect,
}

impl Default for Modeline {
    fn default() -> (r: Self)
        ensures
            r.rect_spec() == (Rect { x: 0, y: 0, width: 1, height: 1 }),
    {
        Modeline { rect: Rect::default() }
    }
}

impl Modeline {
    /// Where the panel is.
    pub closed spec fn rect_spec(self) -> Rect {
        self.rect
    }

    /// Where the panel is.
    pub fn rect(&self) -> (r: Rect)
        ensures
            r == self.rect_spec(),
    {
        self.rect
    }

    /// Places the panel at `rect`.
    pub fn set_rect(&mut self, rect: Rect)
        ensures
            final(self).rect_spec() == rect,
    {
        self.rect = rect;
    }
}


/// The state of the modeline: informations shown, a message that overrides
/// them, and the history of the prompt.
pub struct ModelineState {
    pub infos: Vec<ModelineInfo>,
    pub content_override: Option<ContentOverride>,
    pub history: Vec<String>,
    pub history_selected_item: usize,
}

/// An information shown in the modeline.
pub struct ModelineInfo {
    pub text: String,
    pub style: Style,
    pub align: Align,
}

/// The side of the modeline an information stands on.
#[derive(Debug, Clone, Copy, PartialEq, Eq, Structural)]
pub enum Align {
    Left,
    Right,
}

/// A message shown in place of the informations, with its styles.
pub struct ContentOverride {
    pub text: String,
    pub top_style: Option<Style>,
    pub bottom_style: Option<Style>,
}

impl ModelineState {
    /// No information, no message and no history.
    pub fn new() -> (r: Self)
        ensures
            r.infos@.len() == 0,
            r.content_override.is_none(),
            r.history@.len() == 0,
            r.history_selected_item == 0,
    {
        ModelineState { infos: Vec::new(), content_override: None, history: Vec::new(), history_selected_item: 0 }
    }

    /// Shows `text` in place of the informations, in the default styles.
    pub fn set_message(&mut self, text: String)
        ensures
            final(self).content_override matches Some(o) && o.text == text && o.top_style.is_none()
                && o.bottom_style.is_none(),
            final(self).infos == old(self).infos,
    {
        self.content_override = Some(ContentOverride { text, top_style: None, bottom_style: None });
    }

    /// Shows `text` in place of the informations: the modeline text color on
    /// the error color above, on the dark error color below.
    pub fn set_error(&mut self, text: String, text_color: Color, error: Color, error_dark: Color)
        ensures
            final(self).content_override matches Some(o) && o.text == text && o.top_style == Some(
                Style {
                    foreground_color: Some(text_color),
                    background_color: Some(error),
                    invert: false,
                    underlined: false,
                    bold: false,
                },
            ) && o.bottom_style == Some(
                Style {
                    foreground_color: Some(text_color),
                    background_color: Some(error_dark),
                    invert: false,
                    underlined: false,
                    bold: false,
                },
            ),
            final(self).infos == old(self).infos,
    {
        let top = Style {
            foreground_color: Some(text_color),
            background_color: Some(error),
            invert: false,
            underlined: false,
            bold: false,
        };
        let bottom = Style {
            foreground_color: Some(text_color),
            background_color: Some(error_dark),
            invert: false,
            underlined: false,
            bold: false,
        };
        self.content_override = Some(ContentOverride { text, top_style: Some(top), bottom_style: Some(bottom) });
    }

    /// Shows the informations again.
    pub fn clear_content_override(&mut self)
        ensures
            final(self).content_override.is_none(),
            final(self).infos == old(self).infos,
    {
        self.content_override = None;
    }

    /// The informations, in order.
    pub fn iter(&self) -> (r: &Vec<ModelineInfo>)
        ensures
            r == &self.infos,
    {
        &self.infos
    }
}

} // verus!
