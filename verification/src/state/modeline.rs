//! The state of the modeline: informations shown, a message that overrides
//! them, and the histories of prompts.

use vstd::prelude::*;

use crate::config::applied_config::theme_of;
use crate::config::insert_order_map::InsertOrderMap;
use crate::config::Config;
use crate::ui::style::{Color, Style};

verus! {

/// The state of the modeline.
pub struct ModelineState {
    pub infos: Vec<ModelineInfo>,
    pub content_override: Option<ContentOverride>,
    pub histories: InsertOrderMap<PromptHistory>,
}

/// The entries of a prompt's history and the one selected.
pub struct PromptHistory {
    pub entries: Vec<String>,
    pub selected_item: usize,
}

/// An information shown in the modeline.
pub struct ModelineInfo {
    pub text: String,
    pub style: Style,
    pub align: Align,
}

/// The side of the modeline an information stands on.
#[derive(Debug, Clone, Copy, PartialEq, Eq, Structural)]
pub enum Align {
    Left,
    Right,
}

/// A message shown in place of the informations, with its styles.
pub struct ContentOverride {
    pub text: String,
    pub top_style: Option<Style>,
    pub bottom_style: Option<Style>,
}

/// The theme color named `name` of the configuration `config`.
pub open spec fn config_theme_color(config: Config, name: Seq<char>) -> Option<Color> {
    if theme_of(config.applied()).contains_key(name) {
        Some(theme_of(config.applied())[name])
    } else {
        None
    }
}

/// A style with the given colors and nothing else.
pub open spec fn colored(fg: Option<Color>, bg: Option<Color>) -> Style {
    Style { foreground_color: fg, background_color: bg, invert: false, underlined: false, bold: false }
}

impl ModelineState {
    /// No information, no message and no history.
    pub fn new() -> (r: Self)
        ensures
            r.infos@.len() == 0,
            r.content_override.is_none(),
            r.histories.wf(),
            r.histories.entries@.len() == 0,
    {
        ModelineState { infos: Vec::new(), content_override: None, histories: InsertOrderMap::new() }
    }

    /// Shows `text` in place of the informations, in the default styles.
    pub fn set_message(&mut self, text: String)
        ensures
            final(self).content_override matches Some(o) && o.text == text && o.top_style.is_none()
                && o.bottom_style.is_none(),
            final(self).infos == old(self).infos,
    {
        self.content_override = Some(ContentOverride { text, top_style: None, bottom_style: None });
    }

    /// Shows `text` in place of the informations, in the theme's error
    /// colors: the `modeline-text` color on `error` above, on `error-dark`
    /// below.
    pub fn set_error(&mut self, text: String, config: &Config)
        requires
            config.wf(),
        ensures
            final(self).content_override matches Some(o) && o.text == text && o.top_style == Some(
                colored(config_theme_color(*config, "modeline-text"@), config_theme_color(*config, "error"@)),
            ) && o.bottom_style == Some(
                colored(config_theme_color(*config, "modeline-text"@), config_theme_color(*config, "error-dark"@)),
            ),
            final(self).infos == old(self).infos,
    {
        let text_color = config.get_theme_color("modeline-text");
        let top = Style {
            foreground_color: text_color,
            background_color: config.get_theme_color("error"),
            invert: false,
            underlined: false,
            bold: false,
        };
        let bottom = Style {
            foreground_color: text_color,
            background_color: config.get_theme_color("error-dark"),
            invert: false,
            underlined: false,
            bold: false,
        };
        self.content_override = Some(ContentOverride { text, top_style: Some(top), bottom_style: Some(bottom) });
    }

    /// Shows the informations again.
    pub fn clear_content_override(&mut self)
        ensures
            final(self).content_override.is_none(),
            final(self).infos == old(self).infos,
    {
        self.content_override = None;
    }

    /// The informations, in order.
    pub fn iter(&self) -> (r: &Vec<ModelineInfo>)
        ensures
            r == &self.infos,
    {
        &self.infos
    }
}

} // verus!
