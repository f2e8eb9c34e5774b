# ayed

The core of a modal text editor, written in Verus: each function carries a
contract that Verus proves.

- `src/state`: text buffers (lines, edits, undo and redo, selections that
  follow edits), views and the resources that hold them; `laws.rs` proves
  that the edit `apply_edit` returns undoes the edit (for an insertion, and
  for a deletion of a range within the content that does not end at the
  start of a line), that undo then restores the lines and selections and
  redo the lines, and that edits, undo and redo never lower the content
  version and raise it whenever the lines change.
- `src/config`: configuration modules made of mappings guarded by
  selectors on states, and how the active ones merge into the applied
  configuration (layers, specificity, the `hooks` mapping).
- `src/config_parser`: the syntax tree and tokenizer of the configuration
  language; `src/config/module.rs` reads a module's mappings from its tree.
- `src/command`, `src/commands`: the command queue with its scopes, the
  registry that resolves command names, option parsing, hooks, and the
  commands themselves: editing, searching, pasting, completions, diagnostics, the
  prompt and its history, closing buffers.
- `src/input.rs`: key inputs, their text form and normalized comparison.
- `src/panels`, `src/ui`: panel layout, the file tree of the file pickers,
  warpdrive jump words and codes, the line numbers, the suggestion and
  completion boxes, styles and colors.
- `app/`: a small terminal front end over the library (file I/O, key
  events, drawing).

Regular expressions are matched by the `regex` crate, through a few
wrappers in `src/pattern.rs` whose contracts name what the crate computes.
