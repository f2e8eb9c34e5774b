//! The prompt commands: running what was typed at the prompt, walking
//! through the prompt's history; and which panel to focus.

use vstd::prelude::*;

use crate::state::modeline::PromptHistory;
use crate::state::text_buffer::lines_of;
use crate::text::{chars_of, push_char, push_str, to_owned_string};
use crate::config_parser::token::{lemma_prefix_len, lemma_prefix_len_bounds, prefix_len};
use crate::text::string_from_range;
use crate::unicode::{char_is_whitespace, is_whitespace_of, trim, trimmed, unicode_ws_pred};

verus! {

/// `s` with every occurrence of `pattern`, taken from left to right without
/// overlapping, replaced by `replacement`.
pub open spec fn replaced(s: Seq<char>, pattern: Seq<char>, replacement: Seq<char>) -> Seq<char>
    decreases s.len(),
{
    if s.len() == 0 {
        Seq::empty()
    } else if 0 < pattern.len() <= s.len() && s.take(pattern.len() as int) == pattern {
        replacement + replaced(s.skip(pattern.len() as int), pattern, replacement)
    } else {
        seq![s[0]] + replaced(s.skip(1), pattern, replacement)
    }
}

/// `s` with every occurrence of `pattern` replaced by `replacement` (see
/// `replaced`).
pub fn replace_all(s: &str, pattern: &str, replacement: &str) -> (r: String)
    requires
        pattern@.len() > 0,
    ensures
        r@ == replaced(s@, pattern@, replacement@),
{
    let cs = chars_of(s);
    let ps = chars_of(pattern);
    let mut out = String::new();
    let mut i: usize = 0;
    proof {
        assert(s@.skip(0) =~= s@);
        assert(out@ + replaced(s@.skip(0), pattern@, replacement@) =~= replaced(s@, pattern@, replacement@));
    }
    while i < cs.len()
        invariant
            cs@ == s@,
            ps@ == pattern@,
            pattern@.len() > 0,
            i <= cs.len(),
            out@ + replaced(s@.skip(i as int), pattern@, replacement@) == replaced(s@, pattern@, replacement@),
        decreases cs.len() - i,
    {
        let ghost rest = s@.skip(i as int);
        let mut is_match = ps.len() <= cs.len() - i;
        let mut k: usize = 0;
        while is_match && k < ps.len()
            invariant
                cs@ == s@,
                ps@ == pattern@,
                i < cs.len(),
                rest == s@.skip(i as int),
                k <= ps.len(),
                is_match ==> ps.len() <= cs.len() - i,
                is_match ==> forall|j: int| 0 <= j < k ==> rest[j] == pattern@[j],
                !is_match ==> !(pattern@.len() <= rest.len() && rest.take(pattern@.len() as int) == pattern@),
            decreases ps.len() - k,
        {
            if cs[i + k] != ps[k] {
                proof {
                    assert(rest[k as int] == cs@[i + k]);
                    if pattern@.len() <= rest.len() && rest.take(pattern@.len() as int) == pattern@ {
                        assert(rest.take(pattern@.len() as int)[k as int] == pattern@[k as int]);
                    }
                }
                is_match = false;
            }
            k += 1;
        }
        if is_match {
            proof {
                assert(rest.take(pattern@.len() as int) =~= pattern@);
                assert(rest.skip(pattern@.len() as int) =~= s@.skip(i + ps.len()));
            }
            let ghost before = out@;
            push_str(&mut out, replacement);
            proof {
                assert(out@ == before + replacement@);
                assert(before + replaced(rest, pattern@, replacement@) == before + (replacement@ + replaced(
                    s@.skip(i + ps.len()),
                    pattern@,
                    replacement@,
                )));
                assert(before + (replacement@ + replaced(s@.skip(i + ps.len()), pattern@, replacement@)) =~= out@
                    + replaced(s@.skip(i + ps.len()), pattern@, replacement@));
            }
            i = i + ps.len();
        } else {
            let ghost before = out@;
            push_char(&mut out, cs[i]);
            proof {
                assert(rest[0] == cs@[i as int]);
                assert(rest.skip(1) =~= s@.skip(i + 1));
                assert(before + (seq![rest[0]] + replaced(s@.skip(i + 1), pattern@, replacement@)) =~= out@
                    + replaced(s@.skip(i + 1), pattern@, replacement@));
            }
            i = i + 1;
        }
    }
    proof {
        assert(s@.skip(i as int) =~= Seq::<char>::empty());
        assert(out@ + Seq::<char>::empty() =~= out@);
    }
    out
}

/// What stands for the typed line in a prompt command.
pub open spec fn prompt_placeholder() -> Seq<char> {
    "<PROMPT>"@
}

/// The line that a prompt runs, given the history's entries: the last
/// entry when nothing was typed and there is one, else what was typed.
pub open spec fn recalled_line(entries: Seq<Seq<char>>, line: Seq<char>) -> Seq<char> {
    if line.len() == 0 && entries.len() > 0 {
        entries.last()
    } else {
        line
    }
}

/// Records `line`, typed at a prompt, in its history and gives the line to
/// run: an empty line recalls the last entry; a non-empty one is appended
/// and the selection moves past the end.
pub fn prompt_history_record(h: &mut PromptHistory, line: &str) -> (r: String)
    ensures
        r@ == recalled_line(lines_of(old(h).entries@), line@),
        line@.len() == 0 ==> *final(h) == *old(h),
        line@.len() > 0 ==> lines_of(final(h).entries@) == lines_of(old(h).entries@).push(line@)
            && final(h).selected_item == old(h).entries@.len() + 1,
{
    let cs = chars_of(line);
    if cs.len() == 0 {
        let n = h.entries.len();
        if n > 0 {
            return to_owned_string(h.entries[n - 1].as_str());
        }
        return to_owned_string(line);
    }
    let ghost before = h.entries@;
    h.entries.push(to_owned_string(line));
    h.selected_item = h.entries.len();
    proof {
        assert(lines_of(h.entries@) =~= lines_of(before).push(line@));
    }
    to_owned_string(line)
}

/// The command that a prompt runs: `command_override`, trimmed, with the
/// placeholder replaced by `line`, or `line` when the override is blank;
/// nothing when that is blank.
pub open spec fn prompt_command_spec(line: Seq<char>, command_override: Seq<char>) -> Option<Seq<char>> {
    let o = trimmed(command_override);
    let command = if o.len() == 0 {
        line
    } else {
        replaced(o, prompt_placeholder(), line)
    };
    if trimmed(command).len() == 0 {
        None
    } else {
        Some(command)
    }
}

/// The command to queue for the prompt line `line` (see
/// `prompt_command_spec`).
pub fn prompt_command(line: &str, command_override: &str) -> (r: Option<String>)
    ensures
        match r {
            Some(c) => prompt_command_spec(line@, command_override@) == Some(c@),
            None => prompt_command_spec(line@, command_override@).is_none(),
        },
{
    let o = trim(command_override);
    let command = if chars_of(o).len() == 0 {
        to_owned_string(line)
    } else {
        proof {
            reveal_strlit("<PROMPT>");
        }
        replace_all(o, "<PROMPT>", line)
    };
    if chars_of(trim(command.as_str())).len() == 0 {
        None
    } else {
        Some(command)
    }
}

/// The selected entry after one step through the history: forward
/// (`next`, at most to the end, which stands for an empty line) and/or
/// backward (`previous`, at least to the first entry).
pub open spec fn history_step(selected: int, count: int, next: bool, previous: bool) -> int {
    let s1 = if next {
        if selected + 1 < count {
            selected + 1
        } else {
            count
        }
    } else {
        selected
    };
    if previous && s1 > 0 {
        s1 - 1
    } else {
        s1
    }
}

/// Steps through the history (see `history_step`) and gives the new prompt
/// line: the selected entry, or an empty line past the end; and whether the
/// cursor should then go to the end of the line (when an entry was chosen).
pub fn prompt_history_step(h: &mut PromptHistory, next: bool, previous: bool) -> (r: (String, bool))
    requires
        old(h).selected_item <= old(h).entries@.len(),
    ensures
        final(h).entries == old(h).entries,
        final(h).selected_item == history_step(
            old(h).selected_item as int,
            old(h).entries@.len() as int,
            next,
            previous,
        ),
        final(h).selected_item == old(h).entries@.len() ==> r.0@.len() == 0 && !r.1,
        final(h).selected_item < old(h).entries@.len() ==> r.0@ == old(h).entries@[final(h).selected_item as int]@
            && r.1,
{
    let max = h.entries.len();
    if next {
        h.selected_item = if h.selected_item < max {
            h.selected_item + 1
        } else {
            max
        };
    }
    if previous && h.selected_item > 0 {
        h.selected_item = h.selected_item - 1;
    }
    if h.selected_item == max {
        (String::new(), false)
    } else {
        (to_owned_string(h.entries[h.selected_item].as_str()), true)
    }
}

/// Whether a character is not white space.
pub open spec fn non_ws_pred() -> spec_fn(char) -> bool {
    |c: char| !is_whitespace_of(c)
}

/// The first word of `s`: after the leading white space, up to the next.
pub open spec fn first_word(s: Seq<char>) -> Seq<char> {
    let t = s.skip(prefix_len(s, unicode_ws_pred()));
    t.take(prefix_len(t, non_ws_pred()))
}

/// The panel that `panel-focus` focuses: the first word of its options;
/// `missing panel name` when there is none.
pub fn panel_to_focus(opt: &str) -> (r: Result<String, String>)
    ensures
        first_word(opt@).len() == 0 ==> (r matches Err(e) && e@ == "missing panel name"@),
        first_word(opt@).len() > 0 ==> (r matches Ok(n) && n@ == first_word(opt@)),
{
    let chars = chars_of(opt);
    let mut a: usize = 0;
    while a < chars.len() && char_is_whitespace(chars[a])
        invariant
            chars@ == opt@,
            a <= chars.len(),
            forall|j: int| 0 <= j < a ==> #[trigger] unicode_ws_pred()(opt@[j]),
        decreases chars.len() - a,
    {
        a += 1;
    }
    proof {
        lemma_prefix_len(opt@, unicode_ws_pred(), a as int);
    }
    let mut b: usize = a;
    while b < chars.len() && !char_is_whitespace(chars[b])
        invariant
            chars@ == opt@,
            a <= b <= chars.len(),
            forall|j: int| a <= j < b ==> #[trigger] non_ws_pred()(opt@[j]),
        decreases chars.len() - b,
    {
        b += 1;
    }
    proof {
        let t = opt@.skip(a as int);
        assert forall|j: int| 0 <= j < b - a implies #[trigger] non_ws_pred()(t[j]) by {
            assert(t[j] == opt@[a + j]);
        }
        if b < chars.len() {
            assert(t[b - a] == opt@[b as int]);
        }
        lemma_prefix_len(t, non_ws_pred(), b - a);
        assert(first_word(opt@) =~= chars@.subrange(a as int, b as int));
    }
    if b == a {
        proof {
            reveal_strlit("missing panel name");
        }
        return Err(to_owned_string("missing panel name"));
    }
    Ok(string_from_range(&chars, a, b))
}

} // verus!
