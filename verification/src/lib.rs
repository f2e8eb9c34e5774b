//! Core data structures and algorithms of a modal text editor: text buffers
//! with undo history, positions and ranges, key input parsing, command queues,
//! option parsing, the configuration tokenizer and panel geometry.

pub mod buffer;
pub mod command;
pub mod commands;
pub mod config;
pub mod config_parser;
pub mod input;
pub mod panels;
pub mod pattern;
pub mod position;
pub mod range;
pub mod selection;
pub mod slotmap;
pub mod state;
pub mod text;
pub mod ui;
pub mod unicode;
pub mod utils;
