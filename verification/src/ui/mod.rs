//! What the panels draw: cell geometry, styles and styled regions.

pub mod layout;
pub mod style;
pub mod ui_state;
