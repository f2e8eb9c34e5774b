//! The core commands that set states and queue other commands.

use vstd::prelude::*;

use crate::command::{lemma_queue_has_scope, CommandQueue};
use crate::commands::misc::command_queued;
use crate::config::Config;
use crate::text::{chars_of, push_char, push_str, str_eq, string_from_range, to_owned_string};
use crate::unicode::{trim, trimmed};

verus! {

/// Whether `c` is ASCII white space (`char::is_ascii_whitespace`): space,
/// tab, line feed, form feed or carriage return.
pub open spec fn is_ascii_ws(c: char) -> bool {
    c == ' ' || c == '\t' || c == '\n' || c == '\x0C' || c == '\r'
}

/// The index of the first ASCII white space of `s`, if any.
pub open spec fn first_ascii_ws(s: Seq<char>) -> Option<int> {
    if exists|i: int| 0 <= i < s.len() && is_ascii_ws(s[i]) {
        Some(choose|i: int| 0 <= i < s.len() && is_ascii_ws(s[i]) && forall|j: int| 0 <= j < i ==> !is_ascii_ws(s[j]))
    } else {
        None
    }
}

/// The state and the value that `state-set` reads from `opt`: the text
/// before and the text after its first ASCII white space, both trimmed.
pub open spec fn state_options(opt: Seq<char>) -> Option<(Seq<char>, Seq<char>)> {
    match first_ascii_ws(opt) {
        Some(i) => Some((trimmed(opt.take(i)), trimmed(opt.skip(i + 1)))),
        None => None,
    }
}

/// Splits `opt` as `state-set` reads it (see `state_options`).
fn split_state_options(opt: &str) -> (r: Option<(String, String)>)
    ensures
        match state_options(opt@) {
            Some((s, v)) => r matches Some((a, b)) && a@ == s && b@ == v,
            None => r is None,
        },
{
    let chars = chars_of(opt);
    let mut i: usize = 0;
    while i < chars.len()
        invariant
            chars@ == opt@,
            i <= chars.len(),
            forall|j: int| 0 <= j < i ==> !is_ascii_ws(opt@[j]),
        decreases chars.len() - i,
    {
        let c = chars[i];
        if c == ' ' || c == '\t' || c == '\n' || c == '\x0C' || c == '\r' {
            proof {
                assert(is_ascii_ws(opt@[i as int]));
                let k = choose|k: int|
                    0 <= k < opt@.len() && is_ascii_ws(opt@[k]) && forall|j: int| 0 <= j < k ==> !is_ascii_ws(opt@[j]);
                if k < i {
                    assert(!is_ascii_ws(opt@[k]));
                }
                if k > i {
                    assert(!is_ascii_ws(opt@[i as int]));
                }
                assert(first_ascii_ws(opt@) == Some(i as int));
            }
            let state = string_from_range(&chars, 0, i);
            let rest = string_from_range(&chars, i + 1, chars.len());
            proof {
                assert(state@ =~= opt@.take(i as int));
                assert(rest@ =~= opt@.skip(i + 1));
            }
            let s = to_owned_string(trim(state.as_str()));
            let v = to_owned_string(trim(rest.as_str()));
            return Some((s, v));
        }
        i += 1;
    }
    None
}

/// The error of `state-set` for options it cannot split.
pub open spec fn bad_options_message(opt: Seq<char>) -> Seq<char> {
    "bad options `"@ + opt + "`"@
}

fn bad_options(opt: &str) -> (r: String)
    ensures
        r@ == bad_options_message(opt@),
{
    let mut e = to_owned_string("bad options `");
    push_str(&mut e, opt);
    push_str(&mut e, "`");
    proof {
        reveal_strlit("bad options `");
        reveal_strlit("`");
        assert(e@ =~= bad_options_message(opt@));
    }
    e
}

/// `state-set`: announces that state `s` is about to take value `v` (see
/// `state_options`) by emitting `state-before-modified:<s> <v>`, then queues
/// `state-set__part2 <opt>` to set it. Fails, changing nothing, when `opt`
/// holds no ASCII white space.
pub fn state_set(opt: &str, queue: &mut CommandQueue) -> (r: Result<(), String>)
    requires
        old(queue).wf(),
        old(queue).scopes().last() + 2 <= u32::MAX,
    ensures
        match state_options(opt@) {
            None => (r matches Err(e) && e@ == bad_options_message(opt@)) && *final(queue) == *old(queue),
            Some((s, v)) => {
                let k = old(queue).scopes().last() as int;
                &&& r is Ok
                &&& final(queue).wf()
                &&& final(queue).commands() == old(queue).commands().insert(
                    k,
                    "state-before-modified:"@ + s + seq![' '] + v,
                ).insert(k + 1, "state-set__part2 "@ + opt@)
                &&& final(queue).scopes() == old(queue).scopes().update(
                    old(queue).scopes().len() - 1,
                    (old(queue).scopes().last() + 2) as u32,
                )
            },
        },
{
    let (state, value) = match split_state_options(opt) {
        Some(p) => p,
        None => {
            return Err(bad_options(opt));
        },
    };
    let mut event = to_owned_string("state-before-modified:");
    push_str(&mut event, state.as_str());
    proof {
        lemma_queue_has_scope(*queue);
    }
    queue.emit(event, value.as_str());
    let mut next = to_owned_string("state-set__part2 ");
    push_str(&mut next, opt);
    proof {
        lemma_queue_has_scope(*queue);
        assert(queue.scopes().last() == old(queue).scopes().last() + 1);
    }
    queue.push(next);
    proof {
        let o = old(queue).scopes();
        assert(queue.scopes() =~= o.update(o.len() - 1, (o.last() + 2) as u32));
    }
    Ok(())
}

/// `state-set__part2`: sets state `s` to value `v` (see `state_options`) in
/// `config`, then emits `state-modified:<s> <v>`. Fails, changing nothing,
/// when `opt` holds no ASCII white space.
pub fn state_set_part2(opt: &str, config: &mut Config, queue: &mut CommandQueue) -> (r: Result<(), String>)
    requires
        old(config).wf(),
        old(queue).wf(),
        old(queue).scopes().last() < u32::MAX,
    ensures
        final(config).wf(),
        match state_options(opt@) {
            None => (r matches Err(e) && e@ == bad_options_message(opt@)) && *final(queue) == *old(queue)
                && *final(config) == *old(config),
            Some((s, v)) => {
                &&& r is Ok
                &&& final(config).modules_spec() == old(config).modules_spec()
                &&& final(config).states() == old(config).states().insert(s, v)
                &&& command_queued(*old(queue), *final(queue), "state-modified:"@ + s + seq![' '] + v)
            },
        },
{
    let (state, value) = match split_state_options(opt) {
        Some(p) => p,
        None => {
            return Err(bad_options(opt));
        },
    };
    let mut event = to_owned_string("state-modified:");
    push_str(&mut event, state.as_str());
    let v2 = to_owned_string(value.as_str());
    config.set_state(state, v2);
    proof {
        lemma_queue_has_scope(*queue);
    }
    queue.emit(event, value.as_str());
    Ok(())
}

/// `wq`: queues `buffer-write`, then `quit`.
pub fn wq(queue: &mut CommandQueue)
    requires
        old(queue).wf(),
        old(queue).scopes().last() + 2 <= u32::MAX,
    ensures
        final(queue).wf(),
        final(queue).commands() == old(queue).commands().insert(
            old(queue).scopes().last() as int,
            "buffer-write"@,
        ).insert(old(queue).scopes().last() + 1, "quit"@),
{
    proof {
        lemma_queue_has_scope(*queue);
    }
    queue.push(to_owned_string("buffer-write"));
    proof {
        lemma_queue_has_scope(*queue);
        assert(queue.scopes().last() == old(queue).scopes().last() + 1);
    }
    queue.push(to_owned_string("quit"));
}

/// The command that `__auto-indent-shim` queues for the text just inserted:
/// `indent --auto` after a line feed (or the two characters `\n`),
/// `indent --auto --auto-dedent` after `}`, none otherwise.
pub open spec fn auto_indent_command(opt: Seq<char>) -> Option<Seq<char>> {
    if opt == seq!['\n'] || opt == seq!['\\', 'n'] {
        Some("indent --auto"@)
    } else if opt == seq!['}'] {
        Some("indent --auto --auto-dedent"@)
    } else {
        None
    }
}

/// `__auto-indent-shim`: queues the indentation command that follows the
/// inserted text `opt` (see `auto_indent_command`).
pub fn auto_indent_shim(opt: &str, queue: &mut CommandQueue)
    requires
        old(queue).wf(),
        old(queue).scopes().last() < u32::MAX,
    ensures
        match auto_indent_command(opt@) {
            Some(c) => command_queued(*old(queue), *final(queue), c),
            None => *final(queue) == *old(queue),
        },
{
    proof {
        reveal_strlit("\n");
        reveal_strlit("\\n");
        reveal_strlit("}");
        reveal_strlit("indent --auto");
        reveal_strlit("indent --auto --auto-dedent");
        assert("\n"@ =~= seq!['\n']);
        assert("\\n"@ =~= seq!['\\', 'n']);
        assert("}"@ =~= seq!['}']);
        lemma_queue_has_scope(*queue);
    }
    if str_eq(opt, "\n") || str_eq(opt, "\\n") {
        queue.push(to_owned_string("indent --auto"));
    } else if str_eq(opt, "}") {
        queue.push(to_owned_string("indent --auto --auto-dedent"));
    }
}

/// `pending-command-run`: queues the command that the state
/// `pending-command` holds, followed by a space and `opt`. Fails, changing
/// nothing, when that state is not set.
pub fn pending_command_run(opt: &str, config: &Config, queue: &mut CommandQueue) -> (r: Result<(), String>)
    requires
        config.wf(),
        old(queue).wf(),
        old(queue).scopes().last() < u32::MAX,
    ensures
        config.states().contains_key("pending-command"@) ==> r is Ok && command_queued(
            *old(queue),
            *final(queue),
            config.states()["pending-command"@] + seq![' '] + opt@,
        ),
        !config.states().contains_key("pending-command"@) ==> (r matches Err(e) && e@
            == "pending-command not set!"@) && *final(queue) == *old(queue),
{
    match config.state_value("pending-command") {
        Some(cmd) => {
            let mut c = to_owned_string(cmd);
            push_char(&mut c, ' ');
            push_str(&mut c, opt);
            proof {
                lemma_queue_has_scope(*queue);
                assert(c@ =~= config.states()["pending-command"@] + seq![' '] + opt@);
            }
            queue.push(c);
            Ok(())
        },
        None => {
            proof {
                reveal_strlit("pending-command not set!");
            }
            Err(to_owned_string("pending-command not set!"))
        },
    }
}

} // verus!
