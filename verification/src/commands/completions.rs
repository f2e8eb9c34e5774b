//! What the completion commands read around the cursor.

use vstd::prelude::*;

use crate::commands::{find_last_span_around, last_span_around};
use crate::commands::misc::byte_of_column;
use crate::pattern::{regex_compiles_of, regex_find_iter, regex_find_iter_of};
use crate::position::Position;
use crate::selection::Selection;
use crate::pattern::spans_view;
use crate::state::text_buffer::{TextBuffer, lines_of};
use crate::text::{
    byte_index_to_char_index, char_index_at_byte, char_index_to_byte_index, chars_of, lemma_utf8_len_prefix, starts_with,
    str_byte_len, str_eq, string_from_range, to_owned_string, utf8_len,
};

verus! {

/// The completion state of the editor, cleared when another buffer is edited.
pub struct CompletionsState {
    /// Where the cursor must be for the suggestion box to show.
    pub prompt_suggestion_cursor_position: Option<Position>,
    pub items: Vec<String>,
    /// The selected item, counted from 1; 0 for none.
    pub selected_item: i32,
    /// The original symbols under each cursor of the active view.
    pub original_symbols: Vec<String>,
    /// Where the original symbol of the primary cursor starts.
    pub original_symbol_start: Position,
}

impl Default for CompletionsState {
    fn default() -> (r: Self)
        ensures
            r.prompt_suggestion_cursor_position.is_none(),
            r.items@.len() == 0,
            r.selected_item == 0,
            r.original_symbols@.len() == 0,
            r.original_symbol_start == (Position { column: 0, row: 0 }),
    {
        CompletionsState {
            prompt_suggestion_cursor_position: None,
            items: Vec::new(),
            selected_item: 0,
            original_symbols: Vec::new(),
            original_symbol_start: Position::zero(),
        }
    }
}

/// A symbol: a run of word characters, or a run of characters that are
/// neither word characters nor white space.
pub const RE_SYMBOL: &'static str = "\\w+|[^\\s\\w]+";

/// The selection from the start of the symbol that the cursor ends, on
/// line `line`, to the cursor, whose column is the cursor's byte offset in
/// the line; the cursor alone when it ends no symbol.
pub open spec fn symbol_prefix_selection_spec(line: Seq<char>, cursor: Position) -> Selection {
    let b = byte_of_column(line, cursor.column as int);
    let span = if regex_compiles_of(RE_SYMBOL@) {
        last_span_around(regex_find_iter_of(RE_SYMBOL@, line), b)
    } else {
        None
    };
    match span {
        Some((s, _)) => Selection {
            anchor: Position { column: char_index_at_byte(line, s) as i32, row: cursor.row },
            cursor: Position { column: b as i32, row: cursor.row },
        },
        None => Selection { anchor: cursor, cursor },
    }
}

/// The selection of the part of the symbol under the cursor that precedes
/// it (see `symbol_prefix_selection_spec`).
pub fn selection_from_symbol_prefix_under_cursor(buffer: &TextBuffer, cursor: Position) -> (r: Selection)
    requires
        0 <= cursor.row < buffer.lines@.len(),
        0 <= cursor.column <= buffer.lines@[cursor.row as int]@.len(),
    ensures
        r == symbol_prefix_selection_spec(buffer.lines@[cursor.row as int]@, cursor),
{
    let row = cursor.row;
    let line = match buffer.line(row) {
        Some(l) => l,
        None => {
            return Selection { anchor: cursor, cursor };
        },
    };
    let _ = str_byte_len(line);
    proof {
        lemma_utf8_len_prefix(line@, cursor.column as int);
    }
    let cursor_byte_idx = match char_index_to_byte_index(line, cursor.column as usize) {
        Some(b) => b,
        None => {
            return Selection { anchor: cursor, cursor };
        },
    };
    let matches = match regex_find_iter(RE_SYMBOL, line) {
        Ok(m) => m,
        Err(()) => {
            return Selection { anchor: cursor, cursor };
        },
    };
    match find_last_span_around(&matches, cursor_byte_idx) {
        Some((s, _)) => {
            let start_column = byte_index_to_char_index(line, s) as i32;
            let end_column = cursor_byte_idx as i32;
            Selection {
                anchor: Position { column: start_column, row },
                cursor: Position { column: end_column, row },
            }
        },
        None => Selection { anchor: cursor, cursor },
    }
}

/// The characters of `line` between two byte offsets of its encoding
/// (none when they are out of order).
pub open spec fn byte_slice(line: Seq<char>, a: int, b: int) -> Seq<char> {
    let i = char_index_at_byte(line, a);
    let j = char_index_at_byte(line, b);
    if i <= j {
        line.subrange(i, j)
    } else {
        Seq::empty()
    }
}

/// Whether `m` is a completion candidate: it begins with `prefix` and is
/// not the symbol being completed.
pub open spec fn is_candidate(m: Seq<char>, symbol: Seq<char>, prefix: Seq<char>) -> bool {
    &&& prefix.len() <= m.len()
    &&& m.take(prefix.len() as int) == prefix
    &&& m != symbol
}

/// `items` with the candidates among the symbols at `spans` of `line`
/// appended in order, each once.
pub open spec fn with_candidates(
    items: Seq<Seq<char>>,
    line: Seq<char>,
    spans: Seq<(int, int)>,
    symbol: Seq<char>,
    prefix: Seq<char>,
) -> Seq<Seq<char>>
    decreases spans.len(),
{
    if spans.len() == 0 {
        items
    } else {
        let prev = with_candidates(items, line, spans.drop_last(), symbol, prefix);
        let m = byte_slice(line, spans.last().0, spans.last().1);
        if is_candidate(m, symbol, prefix) && !prev.contains(m) {
            prev.push(m)
        } else {
            prev
        }
    }
}

/// The candidates of all the symbols of `lines`, line after line, each once.
pub open spec fn gathered(lines: Seq<Seq<char>>, symbol: Seq<char>, prefix: Seq<char>) -> Seq<Seq<char>>
    decreases lines.len(),
{
    if lines.len() == 0 {
        Seq::empty()
    } else {
        let prev = gathered(lines.drop_last(), symbol, prefix);
        if regex_compiles_of(RE_SYMBOL@) {
            with_candidates(prev, lines.last(), regex_find_iter_of(RE_SYMBOL@, lines.last()), symbol, prefix)
        } else {
            prev
        }
    }
}

/// The byte offset of the cursor in `line`: that of its column, or the
/// length of the line when the column is outside it.
pub open spec fn cursor_byte(line: Seq<char>, column: int) -> int {
    if 0 <= column <= line.len() {
        utf8_len(line.take(column))
    } else {
        utf8_len(line)
    }
}

/// The span of the symbol that the cursor ends on `line`, if any.
pub open spec fn symbol_span_at(line: Seq<char>, column: int) -> Option<(int, int)> {
    if regex_compiles_of(RE_SYMBOL@) {
        last_span_around(regex_find_iter_of(RE_SYMBOL@, line), cursor_byte(line, column))
    } else {
        None
    }
}

/// The only completion source supported.
pub open spec fn unsupported_source_message() -> Seq<char> {
    "only 'active-buffer' is supported as suggestion source"@
}

/// Whether `s` is in `items`.
pub fn contains_str(items: &Vec<String>, s: &str) -> (r: bool)
    ensures
        r == lines_of(items@).contains(s@),
{
    let ghost v = lines_of(items@);
    let mut i: usize = 0;
    while i < items.len()
        invariant
            i <= items.len(),
            v == lines_of(items@),
            forall|j: int| 0 <= j < i ==> v[j] != s@,
        decreases items.len() - i,
    {
        if str_eq(items[i].as_str(), s) {
            proof {
                assert(v[i as int] == s@);
            }
            return true;
        }
        i += 1;
    }
    false
}

/// Appends to `items` the candidates among the symbols at `spans` of `line`
/// (see `with_candidates`).
fn add_candidates(items: &mut Vec<String>, line: &str, spans: &Vec<(usize, usize)>, symbol: &str, prefix: &str)
    ensures
        lines_of(final(items)@) == with_candidates(lines_of(old(items)@), line@, spans_view(spans@), symbol@, prefix@),
{
    let ghost sv = spans_view(spans@);
    let ghost start = lines_of(items@);
    let chars = chars_of(line);
    let mut k: usize = 0;
    proof {
        assert(sv.take(0) =~= Seq::<(int, int)>::empty());
    }
    while k < spans.len()
        invariant
            k <= spans.len(),
            sv == spans_view(spans@),
            chars@ == line@,
            lines_of(items@) == with_candidates(start, line@, sv.take(k as int), symbol@, prefix@),
        decreases spans.len() - k,
    {
        let (a, b) = spans[k];
        let i = byte_index_to_char_index(line, a);
        let j = byte_index_to_char_index(line, b);
        let m = if i <= j {
            string_from_range(&chars, i, j)
        } else {
            String::new()
        };
        proof {
            let t = sv.take(k + 1);
            assert(t.drop_last() =~= sv.take(k as int));
            assert(t.last() == (a as int, b as int));
            assert(m@ == byte_slice(line@, a as int, b as int));
        }
        if starts_with(m.as_str(), prefix) && !str_eq(m.as_str(), symbol) && !contains_str(items, m.as_str()) {
            let ghost before = items@;
            items.push(m);
            proof {
                assert(lines_of(items@) =~= lines_of(before).push(m@));
            }
        }
        k += 1;
    }
    proof {
        assert(sv.take(k as int) =~= sv);
    }
}

/// Gathers the completions of the symbol that the cursor ends: every
/// symbol of the buffer that begins with the part of it before the cursor
/// and differs from it, in order, each once. Refused unless `source` is
/// `active-buffer`; nothing changes while an item is being selected at the
/// prompt position. Otherwise the items are replaced and the selection
/// reset; where the cursor ends a symbol, its start and the position past
/// its end are kept.
pub fn completions_gather(c: &mut CompletionsState, buffer: &TextBuffer, cursor: Position, source: &str) -> (r: Result<(), String>)
    requires
        0 <= cursor.row < buffer.lines@.len(),
        buffer.lines@[cursor.row as int]@.len() < i32::MAX,
    ensures
        source@ != "active-buffer"@ ==> (r matches Err(e) && e@ == unsupported_source_message() && *final(c) == *old(c)),
        source@ == "active-buffer"@ && old(c).prompt_suggestion_cursor_position == Some(cursor) && old(c).selected_item != 0
            ==> r is Ok && *final(c) == *old(c),
        source@ == "active-buffer"@ && !(old(c).prompt_suggestion_cursor_position == Some(cursor) && old(c).selected_item
            != 0) ==> {
            let line = buffer.lines@[cursor.row as int]@;
            &&& r is Ok
            &&& final(c).selected_item == 0
            &&& final(c).original_symbols == old(c).original_symbols
            &&& match symbol_span_at(line, cursor.column as int) {
                Some((s, e)) => {
                    &&& final(c).original_symbol_start == Position { column: char_index_at_byte(line, s) as i32, row: cursor.row }
                    &&& final(c).prompt_suggestion_cursor_position == Some(
                        Position { column: (char_index_at_byte(line, e) + 1) as i32, row: cursor.row },
                    )
                    &&& lines_of(final(c).items@) == gathered(
                        lines_of(buffer.lines@),
                        byte_slice(line, s, e),
                        byte_slice(line, s, cursor_byte(line, cursor.column as int)),
                    )
                },
                None => {
                    &&& final(c).original_symbol_start == old(c).original_symbol_start
                    &&& final(c).prompt_suggestion_cursor_position == old(c).prompt_suggestion_cursor_position
                    &&& final(c).items@.len() == 0
                },
            }
        },
{
    proof {
        reveal_strlit("active-buffer");
    }
    if !str_eq(source, "active-buffer") {
        let msg = to_owned_string("only 'active-buffer' is supported as suggestion source");
        proof {
            reveal_strlit("only 'active-buffer' is supported as suggestion source");
        }
        return Err(msg);
    }
    let should_prompt = match c.prompt_suggestion_cursor_position {
        Some(p) => p == cursor,
        None => false,
    };
    if should_prompt && c.selected_item != 0 {
        return Ok(());
    }
    let line: &str = buffer.lines[cursor.row as usize].as_str();
    let ghost lv = line@;
    let len = str_byte_len(line);
    let cb = if cursor.column < 0 {
        len
    } else {
        proof {
            if cursor.column as int <= lv.len() {
                lemma_utf8_len_prefix(lv, cursor.column as int);
            }
        }
        match char_index_to_byte_index(line, cursor.column as usize) {
            Some(b) => b,
            None => len,
        }
    };
    let span = match regex_find_iter(RE_SYMBOL, line) {
        Ok(m) => find_last_span_around(&m, cb),
        Err(()) => None,
    };
    c.items = Vec::new();
    c.selected_item = 0;
    match span {
        None => Ok(()),
        Some((s, e)) => {
            let start_column = byte_index_to_char_index(line, s);
            let end_column = byte_index_to_char_index(line, e);
            c.original_symbol_start = Position { column: start_column as i32, row: cursor.row };
            c.prompt_suggestion_cursor_position = Some(Position { column: end_column as i32 + 1, row: cursor.row });
            let chars = chars_of(line);
            let cc = byte_index_to_char_index(line, cb);
            let symbol = if start_column <= end_column {
                string_from_range(&chars, start_column, end_column)
            } else {
                String::new()
            };
            let prefix = if start_column <= cc {
                string_from_range(&chars, start_column, cc)
            } else {
                String::new()
            };
            let ghost lines = lines_of(buffer.lines@);
            let mut items: Vec<String> = Vec::new();
            let mut i: usize = 0;
            proof {
                assert(lines.take(0) =~= Seq::<Seq<char>>::empty());
                assert(lines_of(items@) =~= Seq::<Seq<char>>::empty());
            }
            while i < buffer.lines.len()
                invariant
                    i <= buffer.lines@.len(),
                    lines == lines_of(buffer.lines@),
                    lines_of(items@) == gathered(lines.take(i as int), symbol@, prefix@),
                decreases buffer.lines@.len() - i,
            {
                let l = buffer.lines[i].as_str();
                proof {
                    let t = lines.take(i + 1);
                    assert(t.drop_last() =~= lines.take(i as int));
                    assert(t.last() == l@);
                }
                match regex_find_iter(RE_SYMBOL, l) {
                    Ok(spans) => {
                        add_candidates(&mut items, l, &spans, symbol.as_str(), prefix.as_str());
                    },
                    Err(()) => {},
                }
                i += 1;
            }
            proof {
                assert(lines.take(i as int) =~= lines);
            }
            c.items = items;
            Ok(())
        },
    }
}

/// Forgets the completions: no items, none selected, no prompt position.
pub fn completions_clear(c: &mut CompletionsState)
    ensures
        final(c).prompt_suggestion_cursor_position.is_none(),
        final(c).items@.len() == 0,
        final(c).selected_item == 0,
        final(c).original_symbols == old(c).original_symbols,
        final(c).original_symbol_start == old(c).original_symbol_start,
{
    c.prompt_suggestion_cursor_position = None;
    c.items = Vec::new();
    c.selected_item = 0;
}

/// The selected item after moving by `delta` among the items and the
/// original symbol (number 0), cycling: `(selected + delta) mod (count + 1)`.
pub open spec fn cycled_selection(selected: int, delta: int, count: int) -> int {
    (selected + delta) % (count + 1)
}

/// Moves the selected completion to the next (`next`) or previous
/// (`previous`) one, cycling through the original symbol; nothing changes
/// without items. Returns whether the selection was on the original
/// symbol before, and whether it is now.
pub fn completions_select_step(c: &mut CompletionsState, next: bool, previous: bool) -> (r: (bool, bool))
    requires
        old(c).items@.len() < i32::MAX,
        0 <= old(c).selected_item <= old(c).items@.len(),
    ensures
        old(c).items@.len() == 0 ==> *final(c) == *old(c) && r == (false, false),
        old(c).items@.len() > 0 ==> {
            &&& final(c).selected_item == cycled_selection(
                old(c).selected_item as int,
                (if next { 1int } else { 0 }) - (if previous { 1int } else { 0 }),
                old(c).items@.len() as int,
            )
            &&& final(c).items == old(c).items
            &&& final(c).original_symbols == old(c).original_symbols
            &&& final(c).original_symbol_start == old(c).original_symbol_start
            &&& final(c).prompt_suggestion_cursor_position == old(c).prompt_suggestion_cursor_position
            &&& r == (old(c).selected_item == 0, final(c).selected_item == 0)
        },
{
    if c.items.len() == 0 {
        return (false, false);
    }
    let from_original = c.selected_item == 0;
    let modulo: i32 = c.items.len() as i32 + 1;
    let mut s: i32 = c.selected_item;
    if next {
        s = s + 1;
    }
    if previous {
        s = s - 1;
    }
    let m = if s < 0 {
        s + modulo
    } else if s >= modulo {
        s - modulo
    } else {
        s
    };
    proof {
        let d: int = (if next { 1int } else { 0 }) - (if previous { 1int } else { 0 });
        assert(s == c.selected_item + d);
        assert(m as int == (s as int) % (modulo as int)) by (nonlinear_arith)
            requires
                modulo >= 2,
                -1 <= s <= modulo,
                s < 0 ==> m == s + modulo,
                s >= modulo ==> m == s - modulo,
                0 <= s < modulo ==> m == s,
        ;
    }
    c.selected_item = m;
    (from_original, m == 0)
}

} // verus!
