//! Text held as characters.

pub mod char_string;
