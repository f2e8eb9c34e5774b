//! Editor state: text buffers, their history and the state of the panels.

pub mod completions;
pub mod diagnostics;
pub mod edit_model;
pub mod jump_points;
pub mod laws;
pub mod lines;
pub mod modeline;
pub mod register;
pub mod resources;
pub mod suggestions;
pub mod text_buffer;
pub mod text_buffer_history;
pub mod view;
