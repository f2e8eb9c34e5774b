//! The syntax tree of a configuration module.

use vstd::prelude::*;

verus! {

/// A parsed module: its top-level blocks, in order.
pub struct Ast {
    pub top_level_blocks: Vec<Block>,
}

/// A block, marked `override` or not.
pub struct Block {
    pub is_override: bool,
    pub kind: BlockKind,
}

/// What a block is.
pub enum BlockKind {
    /// Blocks that apply where the state `state_name` matches `pattern`.
    Selector(SelectorBlock),
    /// A mapping of entry names to values.
    Mapping(MappingBlock),
    /// Blocks kept under a name, for `use`.
    Mixin(MixinBlock),
    /// The blocks of the mixin with this name.
    Use(String),
}

pub struct SelectorBlock {
    pub state_name: String,
    pub pattern: String,
    pub children: Vec<Block>,
}

pub struct MappingBlock {
    pub name: String,
    pub entries: Vec<Entry>,
}

pub struct MixinBlock {
    pub name: String,
    pub children: Vec<Block>,
}

/// An entry of a mapping: its name and its values.
pub struct Entry {
    pub name: String,
    pub values: Vec<Template>,
}

/// A value, made of parts.
pub struct Template {
    pub parts: Vec<TemplatePart>,
}

/// A part of a value: text as written, an escape (held as the text it
/// stands for), or a substitution (held as its name).
pub enum TemplatePart {
    Span(String),
    Escape(String),
    Substitution(String),
}

} // verus!
