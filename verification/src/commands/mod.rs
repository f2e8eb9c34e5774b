//! Helpers of the editor's commands: what they read of a buffer around the
//! cursor.

pub mod completions;
pub mod state;
pub mod editor;
pub mod misc;
pub mod search;
pub mod prompt;
pub mod buffers;
pub mod diagnostics;
pub mod paste;

use vstd::prelude::*;

verus! {

/// The last span of `spans` that starts before byte `b` and ends at it or
/// after it.
pub open spec fn last_span_around(spans: Seq<(int, int)>, b: int) -> Option<(int, int)>
    decreases spans.len(),
{
    if spans.len() == 0 {
        None
    } else if spans.last().0 < b && spans.last().1 >= b {
        Some(spans.last())
    } else {
        last_span_around(spans.drop_last(), b)
    }
}

/// The last span of `spans` that starts before byte `b` and ends at it or
/// after it (see `last_span_around`).
pub fn find_last_span_around(spans: &Vec<(usize, usize)>, b: usize) -> (r: Option<(usize, usize)>)
    ensures
        match r {
            Some(p) => last_span_around(crate::pattern::spans_view(spans@), b as int) == Some(
                (p.0 as int, p.1 as int),
            ),
            None => last_span_around(crate::pattern::spans_view(spans@), b as int).is_none(),
        },
{
    let ghost sv = crate::pattern::spans_view(spans@);
    let mut found: Option<(usize, usize)> = None;
    let mut i: usize = 0;
    while i < spans.len()
        invariant
            sv == crate::pattern::spans_view(spans@),
            i <= spans@.len(),
            match found {
                Some(p) => last_span_around(sv.take(i as int), b as int) == Some((p.0 as int, p.1 as int)),
                None => last_span_around(sv.take(i as int), b as int).is_none(),
            },
        decreases spans@.len() - i,
    {
        proof {
            assert(sv.take(i as int + 1).drop_last() =~= sv.take(i as int));
        }
        let (s, e) = spans[i];
        if s < b && e >= b {
            found = Some((s, e));
        }
        i += 1;
    }
    proof {
        assert(sv.take(spans@.len() as int) =~= sv);
    }
    found
}

} // verus!
