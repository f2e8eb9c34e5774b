//! Moving to the nearest diagnostic, and showing the one under the cursor.

use vstd::prelude::*;

use crate::position::{Position, clamp_i64_to_i32, sat_add_i32};
use crate::range::Range;
use crate::state::diagnostics::Diagnostic;
use crate::text::to_owned_string;

verus! {

/// How far `a` is from `b`, row by row and column by column, each
/// difference saturating in 32 bits.
pub open spec fn distance(a: Position, b: Position) -> Position {
    Position {
        column: sat_add_i32(a.column as int - b.column as int, 0),
        row: sat_add_i32(a.row as int - b.row as int, 0),
    }
}

/// Whether `pos` lies in `[range.start, range.end[`.
pub open spec fn holds(range: Range, pos: Position) -> bool {
    range.start.precedes_or_eq_spec(pos) && pos.precedes_spec(range.end)
}

/// Whether the diagnostic lies wholly before `cursor` without holding it.
pub open spec fn is_before(d: Diagnostic, cursor: Position) -> bool {
    !holds(d.range, cursor) && d.range.end.precedes_or_eq_spec(cursor)
}

/// Whether the diagnostic starts after `cursor`, holds it not, and does not
/// end before it.
pub open spec fn is_after(d: Diagnostic, cursor: Position) -> bool {
    !holds(d.range, cursor) && !d.range.end.precedes_or_eq_spec(cursor) && cursor.precedes_spec(d.range.start)
}

/// The first of the diagnostics before `cursor` whose end is nearest to it.
pub open spec fn nearest_before(diags: Seq<Diagnostic>, cursor: Position) -> Option<Diagnostic>
    decreases diags.len(),
{
    if diags.len() == 0 {
        None
    } else {
        let prev = nearest_before(diags.drop_last(), cursor);
        let d = diags.last();
        if is_before(d, cursor) && match prev {
            None => true,
            Some(p) => distance(cursor, d.range.end).precedes_spec(distance(cursor, p.range.end)),
        } {
            Some(d)
        } else {
            prev
        }
    }
}

/// The first of the diagnostics after `cursor` whose start is nearest to it.
pub open spec fn nearest_after(diags: Seq<Diagnostic>, cursor: Position) -> Option<Diagnostic>
    decreases diags.len(),
{
    if diags.len() == 0 {
        None
    } else {
        let prev = nearest_after(diags.drop_last(), cursor);
        let d = diags.last();
        if is_after(d, cursor) && match prev {
            None => true,
            Some(p) => distance(d.range.start, cursor).precedes_spec(distance(p.range.start, cursor)),
        } {
            Some(d)
        } else {
            prev
        }
    }
}

/// Where moving to the next (or, with `previous` alone, the previous)
/// diagnostic leads: the start of the nearest one after the cursor, or
/// before it.
pub open spec fn diagnostic_target(diags: Seq<Diagnostic>, cursor: Position, next: bool, previous: bool) -> Option<Position> {
    let forward = next || !previous;
    match (if forward { nearest_after(diags, cursor) } else { None }) {
        Some(d) => Some(d.range.start),
        None => match (if previous { nearest_before(diags, cursor) } else { None }) {
            Some(d) => Some(d.range.start),
            None => None,
        },
    }
}

fn distance_exec(a: Position, b: Position) -> (r: Position)
    ensures
        r == distance(a, b),
{
    Position {
        column: clamp_i64_to_i32(a.column as i64 - b.column as i64),
        row: clamp_i64_to_i32(a.row as i64 - b.row as i64),
    }
}

/// The start of the diagnostic that moving from `cursor` leads to (see
/// `diagnostic_target`); `no further diagnostics found` when there is none.
pub fn diagnostics_move_target(diags: &Vec<&Diagnostic>, cursor: Position, next: bool, previous: bool) -> (r: Result<
    Position,
    String,
>)
    ensures
        match diagnostic_target(diags@.map_values(|d: &Diagnostic| *d), cursor, next, previous) {
            Some(p) => r == Ok::<Position, String>(p),
            None => r matches Err(e) && e@ == "no further diagnostics found"@,
        },
{
    let ghost ds = diags@.map_values(|d: &Diagnostic| *d);
    let mut before: Option<&Diagnostic> = None;
    let mut after: Option<&Diagnostic> = None;
    let mut i: usize = 0;
    while i < diags.len()
        invariant
            i <= diags.len(),
            ds == diags@.map_values(|d: &Diagnostic| *d),
            match before {
                Some(b) => nearest_before(ds.take(i as int), cursor) == Some(*b),
                None => nearest_before(ds.take(i as int), cursor).is_none(),
            },
            match after {
                Some(a) => nearest_after(ds.take(i as int), cursor) == Some(*a),
                None => nearest_after(ds.take(i as int), cursor).is_none(),
            },
        decreases diags.len() - i,
    {
        let d = diags[i];
        proof {
            let t = ds.take(i + 1);
            assert(t.drop_last() =~= ds.take(i as int));
            assert(t.last() == *d);
        }
        if !d.range.contains(cursor) {
            if d.range.end.precedes_or_eq(&cursor) {
                let dist = distance_exec(cursor, d.range.end);
                let better = match before {
                    None => true,
                    Some(p) => dist.precedes(&distance_exec(cursor, p.range.end)),
                };
                if better {
                    before = Some(d);
                }
            } else if cursor.precedes(&d.range.start) {
                let dist = distance_exec(d.range.start, cursor);
                let better = match after {
                    None => true,
                    Some(p) => dist.precedes(&distance_exec(p.range.start, cursor)),
                };
                if better {
                    after = Some(d);
                }
            }
        }
        i += 1;
    }
    proof {
        assert(ds.take(i as int) =~= ds);
    }
    let forward = next || !previous;
    if forward {
        if let Some(a) = after {
            return Ok(a.range.start);
        }
    }
    if previous {
        if let Some(b) = before {
            return Ok(b.range.start);
        }
    }
    proof {
        reveal_strlit("no further diagnostics found");
    }
    Err(to_owned_string("no further diagnostics found"))
}

/// The message of the last diagnostic that holds `cursor`, if any.
pub open spec fn hover_message(diags: Seq<Diagnostic>, cursor: Position) -> Option<Seq<char>>
    decreases diags.len(),
{
    if diags.len() == 0 {
        None
    } else if holds(diags.last().range, cursor) {
        Some(diags.last().message@)
    } else {
        hover_message(diags.drop_last(), cursor)
    }
}

/// The message to show for the diagnostics under `cursor`: that of the last
/// one holding it (see `hover_message`).
pub fn diagnostics_hover(diags: &Vec<&Diagnostic>, cursor: Position) -> (r: Option<String>)
    ensures
        match hover_message(diags@.map_values(|d: &Diagnostic| *d), cursor) {
            Some(m) => r matches Some(s) && s@ == m,
            None => r.is_none(),
        },
{
    let ghost ds = diags@.map_values(|d: &Diagnostic| *d);
    let mut found: Option<&Diagnostic> = None;
    let mut i: usize = 0;
    while i < diags.len()
        invariant
            i <= diags.len(),
            ds == diags@.map_values(|d: &Diagnostic| *d),
            match found {
                Some(f) => hover_message(ds.take(i as int), cursor) == Some(f.message@),
                None => hover_message(ds.take(i as int), cursor).is_none(),
            },
        decreases diags.len() - i,
    {
        let d = diags[i];
        proof {
            let t = ds.take(i + 1);
            assert(t.drop_last() =~= ds.take(i as int));
            assert(t.last() == *d);
        }
        if d.range.contains(cursor) {
            found = Some(d);
        }
        i += 1;
    }
    proof {
        assert(ds.take(i as int) =~= ds);
    }
    match found {
        Some(f) => Some(to_owned_string(f.message.as_str())),
        None => None,
    }
}

} // verus!
