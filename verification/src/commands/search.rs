//! Finding, on one line, the match of a pattern that a cursor moves to.

use vstd::prelude::*;

use crate::pattern::{regex_compile, regex_compiles_of, regex_find_iter, regex_find_iter_of, spans_view};
use crate::position::Position;
use crate::selection::Selection;
use crate::state::text_buffer::TextBuffer;
use crate::text::{byte_index_to_char_index, char_index_at_byte};

verus! {

/// The first and last character columns of the match at byte span `span`
/// of `line`; an empty match (such as one of `$`) ends where it starts.
pub open spec fn match_columns(line: Seq<char>, span: (int, int)) -> (int, int) {
    let start = char_index_at_byte(line, span.0);
    let one_past_end = char_index_at_byte(line, span.1);
    if start == one_past_end {
        (start, one_past_end)
    } else {
        (start, one_past_end - 1)
    }
}

/// The spans in the order they are tried: last first when `reversed`.
pub open spec fn tried_spans(spans: Seq<(int, int)>, reversed: bool) -> Seq<(int, int)> {
    Seq::new(
        spans.len(),
        |i: int|
            if reversed {
                spans[spans.len() - 1 - i]
            } else {
                spans[i]
            },
    )
}

/// The first of `spans` whose match does not come too early for a search
/// from column `from` (forward: it must end after `from`; reversed: it must
/// start before it), as the new anchor and cursor columns: start then end,
/// or end then start when `reversed`.
pub open spec fn first_needle(line: Seq<char>, spans: Seq<(int, int)>, from: int, reversed: bool) -> Option<(int, int)>
    decreases spans.len(),
{
    if spans.len() == 0 {
        None
    } else {
        let (s, e) = match_columns(line, spans[0]);
        let too_early = if reversed {
            from <= s
        } else {
            from >= e
        };
        if too_early {
            first_needle(line, spans.skip(1), from, reversed)
        } else if reversed {
            Some((e, s))
        } else {
            Some((s, e))
        }
    }
}

/// The match of `pattern` on `line` that a cursor at column `from` moves to
/// (see `first_needle`), its columns as anchor then cursor: `Err` exactly
/// when the pattern does not compile, `Ok(None)` when no match is left on
/// the line.
pub fn regex_needle_in_line(line: &str, pattern: &str, from: i32, reversed: bool) -> (r: Result<Option<(i32, i32)>, ()>)
    requires
        line@.len() <= i32::MAX,
    ensures
        r is Err <==> !regex_compiles_of(pattern@),
        r matches Ok(n) ==> match (n, first_needle(line@, tried_spans(regex_find_iter_of(pattern@, line@), reversed), from as int, reversed)) {
            (None, None) => true,
            (Some(c), Some(d)) => c.0 as int == d.0 && c.1 as int == d.1,
            _ => false,
        },
{
    let spans = match regex_find_iter(pattern, line) {
        Ok(s) => s,
        Err(()) => {
            return Err(());
        },
    };
    let ghost sv = spans_view(spans@);
    let ghost order = tried_spans(sv, reversed);
    let n = spans.len();
    let mut k: usize = 0;
    proof {
        assert(order.skip(0) =~= order);
    }
    while k < n
        invariant
            n == spans.len(),
            k <= n,
            sv == spans_view(spans@),
            sv == regex_find_iter_of(pattern@, line@),
            regex_compiles_of(pattern@),
            order == tried_spans(sv, reversed),
            line@.len() <= i32::MAX,
            first_needle(line@, order, from as int, reversed) == first_needle(
                line@,
                order.skip(k as int),
                from as int,
                reversed,
            ),
        decreases n - k,
    {
        let idx = if reversed {
            n - 1 - k
        } else {
            k
        };
        let (sb, eb) = spans[idx];
        let start = byte_index_to_char_index(line, sb) as i32;
        let one_past_end = byte_index_to_char_index(line, eb) as i32;
        let end = if start == one_past_end {
            one_past_end
        } else {
            one_past_end - 1
        };
        proof {
            let rest = order.skip(k as int);
            assert(rest[0] == order[k as int]);
            assert(order[k as int] == sv[idx as int]);
            assert(sv[idx as int] == (sb as int, eb as int));
            assert(rest.skip(1) =~= order.skip(k + 1));
        }
        let too_early = if reversed {
            from <= start
        } else {
            from >= end
        };
        if !too_early {
            if reversed {
                return Ok(Some((end, start)));
            } else {
                return Ok(Some((start, end)));
            }
        }
        k += 1;
    }
    proof {
        assert(order.skip(k as int).len() == 0);
    }
    Ok(None)
}

/// Searching from column `from` of row `row`, the row and the columns of
/// the match that the cursor moves to: on that row, else (unless `stay`)
/// on the rows after it, or before it when `reversed`, each searched from
/// its start (from its end when `reversed`).
pub open spec fn needle_from(
    lines: Seq<Seq<char>>,
    pattern: Seq<char>,
    row: int,
    from: int,
    reversed: bool,
    stay: bool,
) -> Option<(int, (int, int))>
    decreases (if reversed {
        row + 1
    } else {
        lines.len() - row
    }),
{
    if 0 <= row < lines.len() {
        match first_needle(lines[row], tried_spans(regex_find_iter_of(pattern, lines[row]), reversed), from, reversed) {
            Some(c) => Some((row, c)),
            None => if stay {
                None
            } else if reversed {
                needle_from(lines, pattern, row - 1, i32::MAX as int, reversed, stay)
            } else {
                needle_from(lines, pattern, row + 1, -1, reversed, stay)
            },
        }
    } else {
        None
    }
}

/// The selection moved to the match of `pattern` found from its cursor
/// (see `needle_from`): the cursor at the match's cursor column, the anchor
/// at its anchor column but never on the other side of the old cursor; the
/// selection unchanged when nothing is found.
pub open spec fn regex_moved(lines: Seq<Seq<char>>, pattern: Seq<char>, sel: Selection, reversed: bool, stay: bool) -> Selection {
    let cursor = sel.cursor;
    match needle_from(lines, pattern, cursor.row as int, cursor.column as int, reversed, stay) {
        Some((row, (a, c))) => {
            let na = Position { column: a as i32, row: row as i32 };
            let anchor = if reversed {
                if cursor.precedes_spec(na) {
                    cursor
                } else {
                    na
                }
            } else if na.precedes_spec(cursor) {
                cursor
            } else {
                na
            };
            Selection { anchor, cursor: Position { column: c as i32, row: row as i32 } }
        },
        None => sel,
    }
}

/// A reversed search finds nothing on a line where every match starts at or
/// after the column it searches from.
proof fn lemma_reversed_none(line: Seq<char>, spans: Seq<(int, int)>, from: int)
    requires
        forall|i: int| 0 <= i < spans.len() ==> from <= #[trigger] match_columns(line, spans[i]).0,
    ensures
        first_needle(line, spans, from, true) is None,
    decreases spans.len(),
{
    if spans.len() > 0 {
        assert forall|i: int| 0 <= i < spans.skip(1).len() implies from <= #[trigger] match_columns(
            line,
            spans.skip(1)[i],
        ).0 by {
            assert(spans.skip(1)[i] == spans[i + 1]);
        }
        lemma_reversed_none(line, spans.skip(1), from);
    }
}

/// A reversed search that finds no match starting before the cursor on the
/// cursor's row goes on to the row above and searches it from its end, so
/// that every match there qualifies: the selection lands on the last match
/// of the row above, the cursor at its first column and the anchor at its
/// last.
pub proof fn law_reversed_search_reaches_row_above(lines: Seq<Seq<char>>, pattern: Seq<char>, sel: Selection)
    requires
        1 <= sel.cursor.row < lines.len(),
        forall|i: int|
            0 <= i < regex_find_iter_of(pattern, lines[sel.cursor.row as int]).len() ==> sel.cursor.column
                <= #[trigger] match_columns(
                lines[sel.cursor.row as int],
                regex_find_iter_of(pattern, lines[sel.cursor.row as int])[i],
            ).0,
        regex_find_iter_of(pattern, lines[sel.cursor.row - 1]).len() > 0,
        lines[sel.cursor.row - 1].len() < i32::MAX,
    ensures
        ({
            let above = lines[sel.cursor.row - 1];
            let last = match_columns(above, regex_find_iter_of(pattern, above).last());
            let moved = regex_moved(lines, pattern, sel, true, false);
            &&& moved.cursor == Position { column: last.0 as i32, row: (sel.cursor.row - 1) as i32 }
            &&& moved.anchor == Position { column: last.1 as i32, row: (sel.cursor.row - 1) as i32 }
        }),
{
    let r = sel.cursor.row as int;
    let spans = regex_find_iter_of(pattern, lines[r]);
    let tried = tried_spans(spans, true);
    assert forall|i: int| 0 <= i < tried.len() implies sel.cursor.column <= #[trigger] match_columns(
        lines[r],
        tried[i],
    ).0 by {
        assert(tried[i] == spans[spans.len() - 1 - i]);
    }
    lemma_reversed_none(lines[r], tried, sel.cursor.column as int);
    let above = lines[r - 1];
    let sa = regex_find_iter_of(pattern, above);
    let ta = tried_spans(sa, true);
    assert(ta[0] == sa.last());
    let last = match_columns(above, sa.last());
    crate::text::lemma_char_index_at_byte_bounds(above, sa.last().0);
    crate::text::lemma_char_index_at_byte_bounds(above, sa.last().1);
    assert(first_needle(above, ta, i32::MAX as int, true) == Some((last.1, last.0)));
    assert(needle_from(lines, pattern, r - 1, i32::MAX as int, true, false) == Some((r - 1, (last.1, last.0))));
    assert(needle_from(lines, pattern, r, sel.cursor.column as int, true, false) == Some((r - 1, (last.1, last.0))));
}

/// Later bytes belong to the same or later characters.
proof fn lemma_char_index_at_byte_monotone(s: Seq<char>, a: int, b: int)
    requires
        a <= b,
    ensures
        char_index_at_byte(s, a) <= char_index_at_byte(s, b),
    decreases s.len(),
{
    if s.len() > 0 && crate::text::char_utf8_len(s[0]) <= a {
        lemma_char_index_at_byte_monotone(s.skip(1), a - crate::text::char_utf8_len(s[0]), b - crate::text::char_utf8_len(s[0]));
    }
    if s.len() > 0 {
        crate::text::lemma_char_index_at_byte_bounds(s.skip(1), b - crate::text::char_utf8_len(s[0]));
    }
}

/// A forward search finds nothing on a line where every match ends at or
/// before the column it searches from.
proof fn lemma_forward_none(line: Seq<char>, spans: Seq<(int, int)>, from: int)
    requires
        forall|i: int| 0 <= i < spans.len() ==> #[trigger] match_columns(line, spans[i]).1 <= from,
    ensures
        first_needle(line, spans, from, false) is None,
    decreases spans.len(),
{
    if spans.len() > 0 {
        assert forall|i: int| 0 <= i < spans.skip(1).len() implies #[trigger] match_columns(
            line,
            spans.skip(1)[i],
        ).1 <= from by {
            assert(spans.skip(1)[i] == spans[i + 1]);
        }
        lemma_forward_none(line, spans.skip(1), from);
    }
}

/// A forward search that finds no match ending after the cursor on the
/// cursor's row goes on to the row below and searches it from its start,
/// so that every match there qualifies: the selection lands on the first
/// match of the row below, the anchor at its first column and the cursor
/// at its last.
pub proof fn law_forward_search_reaches_row_below(lines: Seq<Seq<char>>, pattern: Seq<char>, sel: Selection)
    requires
        0 <= sel.cursor.row,
        sel.cursor.row + 1 < lines.len() <= i32::MAX,
        forall|i: int|
            0 <= i < regex_find_iter_of(pattern, lines[sel.cursor.row as int]).len() ==> #[trigger] match_columns(
                lines[sel.cursor.row as int],
                regex_find_iter_of(pattern, lines[sel.cursor.row as int])[i],
            ).1 <= sel.cursor.column,
        regex_find_iter_of(pattern, lines[sel.cursor.row + 1]).len() > 0,
        regex_find_iter_of(pattern, lines[sel.cursor.row + 1])[0].0 <= regex_find_iter_of(
            pattern,
            lines[sel.cursor.row + 1],
        )[0].1,
        lines[sel.cursor.row + 1].len() < i32::MAX,
    ensures
        ({
            let below = lines[sel.cursor.row + 1];
            let first = match_columns(below, regex_find_iter_of(pattern, below)[0]);
            let moved = regex_moved(lines, pattern, sel, false, false);
            &&& moved.anchor == Position { column: first.0 as i32, row: (sel.cursor.row + 1) as i32 }
            &&& moved.cursor == Position { column: first.1 as i32, row: (sel.cursor.row + 1) as i32 }
        }),
{
    let r = sel.cursor.row as int;
    let spans = regex_find_iter_of(pattern, lines[r]);
    let tried = tried_spans(spans, false);
    assert forall|i: int| 0 <= i < tried.len() implies #[trigger] match_columns(lines[r], tried[i]).1
        <= sel.cursor.column by {
        assert(tried[i] == spans[i]);
    }
    lemma_forward_none(lines[r], tried, sel.cursor.column as int);
    let below = lines[r + 1];
    let sb = regex_find_iter_of(pattern, below);
    let tb = tried_spans(sb, false);
    assert(tb[0] == sb[0]);
    let first = match_columns(below, sb[0]);
    crate::text::lemma_char_index_at_byte_bounds(below, sb[0].0);
    crate::text::lemma_char_index_at_byte_bounds(below, sb[0].1);
    lemma_char_index_at_byte_monotone(below, sb[0].0, sb[0].1);
    assert(first_needle(below, tb, -1, false) == Some((first.0, first.1)));
    assert(needle_from(lines, pattern, r + 1, -1, false, false) == Some((r + 1, (first.0, first.1))));
    assert(needle_from(lines, pattern, r, sel.cursor.column as int, false, false) == Some((r + 1, (first.0, first.1))));
}

/// Moves `selection` to the match of `pattern` found from its cursor (see
/// `regex_moved`): `Err` exactly when the pattern does not compile.
pub fn move_selection_to_regex(
    buffer: &TextBuffer,
    selection: Selection,
    pattern: &str,
    reversed: bool,
    stay_within_line: bool,
) -> (r: Result<Selection, ()>)
    requires
        buffer.lines@.len() <= i32::MAX,
        forall|i: int| 0 <= i < buffer.lines@.len() ==> (#[trigger] buffer.lines@[i])@.len() <= i32::MAX,
    ensures
        r is Err <==> !regex_compiles_of(pattern@),
        r matches Ok(s) ==> s == regex_moved(buffer.lines_view(), pattern@, selection, reversed, stay_within_line),
{
    if regex_compile(pattern).is_err() {
        return Err(());
    }
    let ghost lv = buffer.lines_view();
    let cursor = selection.cursor;
    let mut row: i32 = cursor.row;
    let mut from: i32 = cursor.column;
    loop
        invariant
            lv == buffer.lines_view(),
            lv.len() == buffer.lines@.len(),
            cursor == selection.cursor,
            regex_compiles_of(pattern@),
            buffer.lines@.len() <= i32::MAX,
            forall|i: int| 0 <= i < buffer.lines@.len() ==> (#[trigger] buffer.lines@[i])@.len() <= i32::MAX,
            needle_from(lv, pattern@, cursor.row as int, cursor.column as int, reversed, stay_within_line)
                == needle_from(lv, pattern@, row as int, from as int, reversed, stay_within_line),
        decreases (if reversed {
            row + 1
        } else {
            lv.len() - row
        }),
    {
        let line = match buffer.line(row) {
            Some(l) => l,
            None => {
                return Ok(selection);
            },
        };
        proof {
            assert(lv[row as int] == line@);
        }
        let needle = match regex_needle_in_line(line, pattern, from, reversed) {
            Ok(n) => n,
            Err(()) => {
                return Err(());
            },
        };
        match needle {
            Some((a, c)) => {
                let na = Position { column: a, row };
                let anchor = if reversed {
                    if cursor.precedes(&na) {
                        cursor
                    } else {
                        na
                    }
                } else if na.precedes(&cursor) {
                    cursor
                } else {
                    na
                };
                return Ok(Selection { anchor, cursor: Position { column: c, row } });
            },
            None => {
                if stay_within_line {
                    return Ok(selection);
                }
                if reversed {
                    row = row - 1;
                    from = i32::MAX;
                } else {
                    row = row + 1;
                    from = -1;
                }
            },
        }
    }
}

} // verus!
