//! Saved places: a buffer path and its selections, by register.

use vstd::prelude::*;

use crate::selection::Selections;

verus! {

/// The place saved in each register.
pub struct JumpPoints {
    pub registers: Vec<(char, (String, Selections))>,
}

} // verus!
