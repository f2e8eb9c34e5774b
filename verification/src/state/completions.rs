//! Completions offered while typing in a buffer.

use vstd::prelude::*;

use crate::position::Position;
use crate::state::text_buffer::TextEdit;

verus! {

/// The completions of a buffer.
pub struct Completions {
    /// The filtered and ordered items that should be presented to the user.
    pub items: Vec<CompletionItem>,
    /// Selected item index, 1 based, where 0 means none.
    pub selected_item: i32,
    /// The start position of the primary cursor's original symbol.
    pub original_symbol_start: Position,
    /// Unfiltered items from completion sources, by source.
    pub source_items: Vec<(CompletionSource, CompletionSourceData)>,
    /// The last completion inverse edits, kept to undo the edits when cycling through choices.
    pub last_completion_inverse_edits: Option<Vec<TextEdit>>,
}

/// Where completions come from.
#[derive(Debug, Clone, Copy, PartialEq, Eq, Structural, Hash)]
pub enum CompletionSource {
    Buffer,
    Lsp,
}

/// The items of a source.
pub struct CompletionSourceData {
    pub items: Vec<CompletionItem>,
}

/// What a completion stands for.
#[derive(Debug, Clone, Copy, PartialEq, Eq, Structural, Hash)]
pub enum CompletionItemKind {
    Variable,
    Function,
    Member,
    Type,
    Interface,
    Module,
    Keyword,
    Plaintext,
}

/// A completion: what is shown, what is inserted, and where it comes from.
pub struct CompletionItem {
    pub label: String,
    pub text: String,
    pub extra_edits: Vec<TextEdit>,
    pub kind: CompletionItemKind,
    pub source: CompletionSource,
    pub source_idx: u32,
    pub type_annotation: Option<String>,
    pub documentation: Option<String>,
}

} // verus!
