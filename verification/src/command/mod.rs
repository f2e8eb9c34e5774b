//! The queue of commands to run, and the split of a command into its name
//! and its options.

pub mod options;

use std::collections::VecDeque;

use vstd::prelude::*;

use crate::config::applied_config::entries_view;
use crate::config::insert_order_map::InsertOrderMap;
use crate::config::Config;
use crate::text::{chars_of, push_char, push_str, split_at_char, starts_with};

verus! {

/// The commands left to run in a scope of the queue.
#[derive(Debug)]
struct Scope {
    remaining_commands: u32,
}

/// Commands waiting to run. Commands pushed while a scope is open run
/// before those that were queued when it opened.
#[derive(Debug)]
pub struct CommandQueue {
    queue: VecDeque<String>,
    scope_stack: Vec<Scope>,
    debug_log: String,
}

/// Sum of the commands left in each scope.
pub open spec fn sum_remaining(scopes: Seq<u32>) -> int
    decreases scopes.len(),
{
    if scopes.len() == 0 {
        0
    } else {
        sum_remaining(scopes.drop_last()) + scopes.last()
    }
}

/// The scopes once those on top that have no command left are closed,
/// the first one always staying open.
pub open spec fn settled(scopes: Seq<u32>) -> Seq<u32>
    decreases scopes.len(),
{
    if scopes.len() <= 1 || scopes.last() > 0 {
        scopes
    } else {
        settled(scopes.drop_last())
    }
}

/// `n` times two spaces.
pub open spec fn indent(n: int) -> Seq<char> {
    Seq::new((2 * n) as nat, |i: int| ' ')
}

/// The text of a sequence of strings.
pub open spec fn strings_view(v: Seq<String>) -> Seq<Seq<char>> {
    v.map_values(|s: String| s@)
}

proof fn lemma_settled(scopes: Seq<u32>)
    requires
        scopes.len() >= 1,
    ensures
        settled(scopes).len() >= 1,
        settled(scopes).len() <= scopes.len(),
        sum_remaining(settled(scopes)) == sum_remaining(scopes),
        settled(scopes) == scopes.take(settled(scopes).len() as int),
        settled(scopes).len() == 1 || settled(scopes).last() > 0,
    decreases scopes.len(),
{
    if scopes.len() > 1 && scopes.last() == 0 {
        lemma_settled(scopes.drop_last());
        let s = settled(scopes.drop_last());
        assert(scopes.drop_last().take(s.len() as int) =~= scopes.take(s.len() as int));
    } else {
        assert(scopes.take(scopes.len() as int) =~= scopes);
    }
}

proof fn lemma_sum_update_last(scopes: Seq<u32>, v: u32)
    requires
        scopes.len() >= 1,
    ensures
        sum_remaining(scopes.update(scopes.len() - 1, v)) == sum_remaining(scopes) - scopes.last() + v,
{
    let u = scopes.update(scopes.len() - 1, v);
    assert(u.drop_last() =~= scopes.drop_last());
    assert(sum_remaining(u) == sum_remaining(u.drop_last()) + u.last());
    assert(sum_remaining(scopes) == sum_remaining(scopes.drop_last()) + scopes.last());
}

proof fn lemma_sum_single(v: u32)
    ensures
        sum_remaining(seq![v]) == v,
{
    let s = seq![v];
    assert(s.drop_last() =~= Seq::<u32>::empty());
    assert(sum_remaining(s.drop_last()) == 0);
    assert(s.last() == v);
    assert(sum_remaining(s) == sum_remaining(s.drop_last()) + s.last());
}

impl CommandQueue {
    /// The commands waiting, in the order they run.
    pub closed spec fn commands(self) -> Seq<Seq<char>> {
        strings_view(self.queue@)
    }

    /// The number of commands left in each scope, the innermost last.
    pub closed spec fn scopes(self) -> Seq<u32> {
        self.scope_stack@.map_values(|s: Scope| s.remaining_commands)
    }

    /// The log of the commands run.
    pub closed spec fn log(self) -> Seq<char> {
        self.debug_log@
    }

    /// There is always a scope, and the scopes account for every command.
    pub closed spec fn wf(self) -> bool {
        &&& self.scope_stack@.len() >= 1
        &&& sum_remaining(self.scopes()) == self.queue@.len()
    }

    /// An empty queue with one scope.
    pub fn new() -> (r: Self)
        ensures
            r.wf(),
            r.commands() == Seq::<Seq<char>>::empty(),
            r.scopes() == seq![0u32],
            r.log() == Seq::<char>::empty(),
    {
        let mut scope_stack = Vec::new();
        scope_stack.push(Scope { remaining_commands: 0 });
        let r = CommandQueue { queue: VecDeque::new(), scope_stack, debug_log: String::new() };
        proof {
            assert(r.commands() =~= Seq::<Seq<char>>::empty());
            assert(r.scopes() =~= seq![0u32]);
            lemma_sum_single(0u32);
        }
        r
    }

    /// Returns the log of the commands run, headed by `Command log:` and a
    /// line feed, and empties it.
    pub fn take_debug_log(&mut self) -> (r: String)
        ensures
            r@ == "Command log:\n"@ + old(self).log(),
            final(self).log() == Seq::<char>::empty(),
            final(self).commands() == old(self).commands(),
            final(self).scopes() == old(self).scopes(),
            old(self).wf() ==> final(self).wf(),
    {
        let mut log = String::new();
        push_str(&mut log, "Command log:\n");
        push_str(&mut log, self.debug_log.as_str());
        self.debug_log = String::new();
        proof {
            assert(log@ =~= "Command log:\n"@ + old(self).log());
        }
        log
    }

    /// Queues the command that sets state `state` to `value`:
    /// `state-set <state> <value>`.
    pub fn set_state(&mut self, state: &str, value: &str)
        requires
            old(self).wf(),
            old(self).scopes().last() < u32::MAX,
        ensures
            final(self).wf(),
            final(self).commands() == old(self).commands().insert(
                old(self).scopes().last() as int,
                "state-set "@ + state@ + seq![' '] + value@,
            ),
            final(self).scopes() == old(self).scopes().update(
                old(self).scopes().len() - 1,
                (old(self).scopes().last() + 1) as u32,
            ),
            final(self).log() == old(self).log(),
    {
        let mut command = String::new();
        push_str(&mut command, "state-set ");
        push_str(&mut command, state);
        push_char(&mut command, ' ');
        push_str(&mut command, value);
        proof {
            assert(command@ =~= "state-set "@ + state@ + seq![' '] + value@);
        }
        self.push(command);
    }

    /// Queues `command` after the other commands of the current scope, before
    /// those of the scopes below it.
    pub fn push(&mut self, command: String)
        requires
            old(self).wf(),
            old(self).scopes().last() < u32::MAX,
        ensures
            final(self).wf(),
            final(self).commands() == old(self).commands().insert(old(self).scopes().last() as int, command@),
            final(self).scopes() == old(self).scopes().update(
                old(self).scopes().len() - 1,
                (old(self).scopes().last() + 1) as u32,
            ),
            final(self).log() == old(self).log(),
    {
        let last = self.scope_stack.len() - 1;
        let remaining = self.scope_stack[last].remaining_commands;
        proof {
            assert(self.scopes()[last as int] == remaining);
            lemma_sum_le_last(self.scopes());
        }
        let ghost c = command@;
        self.queue.insert(remaining as usize, command);
        self.scope_stack.set(last, Scope { remaining_commands: remaining + 1 });
        proof {
            assert(self.commands() =~= old(self).commands().insert(remaining as int, c));
            assert(self.scopes() =~= old(self).scopes().update(last as int, (remaining + 1) as u32));
            lemma_sum_update_last(old(self).scopes(), (remaining + 1) as u32);
        }
    }

    /// Queues `command`, a space and `also_concat_this` as one command.
    pub fn emit(&mut self, command: String, also_concat_this: &str)
        requires
            old(self).wf(),
            old(self).scopes().last() < u32::MAX,
        ensures
            final(self).wf(),
            final(self).commands() == old(self).commands().insert(
                old(self).scopes().last() as int,
                command@ + seq![' '] + also_concat_this@,
            ),
            final(self).scopes() == old(self).scopes().update(
                old(self).scopes().len() - 1,
                (old(self).scopes().last() + 1) as u32,
            ),
            final(self).log() == old(self).log(),
    {
        let mut cmd = command;
        push_char(&mut cmd, ' ');
        push_str(&mut cmd, also_concat_this);
        proof {
            assert(cmd@ =~= command@ + seq![' '] + also_concat_this@);
        }
        self.push(cmd);
    }

    /// Takes the next command: closes the finished scopes on top (but the
    /// first), then takes the first command, if any, from the current
    /// scope, and logs it indented by the number of open scopes.
    pub fn pop(&mut self) -> (r: Option<String>)
        requires
            old(self).wf(),
        ensures
            final(self).wf(),
            ({
                let s = settled(old(self).scopes());
                if old(self).commands().len() == 0 {
                    &&& r.is_none()
                    &&& final(self).scopes() == s
                    &&& final(self).commands() == old(self).commands()
                    &&& final(self).log() == old(self).log()
                } else {
                    let c = old(self).commands()[0];
                    &&& r.is_some()
                    &&& r->Some_0@ == c
                    &&& final(self).commands() == old(self).commands().drop_first()
                    &&& final(self).scopes() == s.update(s.len() - 1, (s.last() - 1) as u32)
                    &&& final(self).log() == old(self).log() + indent(s.len() as int) + c + seq!['\n']
                }
            }),
    {
        proof {
            lemma_settled(old(self).scopes());
        }
        while self.scope_stack.len() > 1 && self.scope_stack[self.scope_stack.len() - 1].remaining_commands
            == 0
            invariant
                self.scope_stack@.len() >= 1,
                settled(old(self).scopes()) == settled(self.scopes()),
                sum_remaining(self.scopes()) == sum_remaining(old(self).scopes()),
                self.queue@ == old(self).queue@,
                self.debug_log@ == old(self).debug_log@,
            decreases self.scope_stack@.len(),
        {
            let ghost before = self.scopes();
            self.scope_stack.pop();
            proof {
                assert(self.scopes() =~= before.drop_last());
            }
        }
        proof {
            lemma_settled(self.scopes());
            assert(settled(self.scopes()) == self.scopes());
        }
        let ghost s = self.scopes();
        match self.queue.pop_front() {
            Some(command) => {
                let last = self.scope_stack.len() - 1;
                let remaining = self.scope_stack[last].remaining_commands;
                proof {
                    assert(s[last as int] == remaining);
                    if remaining == 0 {
                        assert(s.len() == 1);
                        lemma_sum_single(s[0]);
                        assert(s =~= seq![s[0]]);
                    }
                }
                self.scope_stack.set(last, Scope { remaining_commands: remaining - 1 });
                proof {
                    assert(self.scopes() =~= s.update(last as int, (remaining - 1) as u32));
                    lemma_sum_update_last(s, (remaining - 1) as u32);
                }
                let depth = self.scope_stack.len();
                let mut k: usize = 0;
                let ghost log0 = self.debug_log@;
                let ghost q = self.queue@;
                let ghost st = self.scope_stack@;
                while k < depth
                    invariant
                        k <= depth,
                        self.debug_log@ == log0 + indent(k as int),
                        self.queue@ == q,
                        self.scope_stack@ == st,
                    decreases depth - k,
                {
                    push_str(&mut self.debug_log, "  ");
                    proof {
                        reveal_strlit("  ");
                        assert(self.debug_log@ =~= log0 + indent(k + 1));
                    }
                    k += 1;
                }
                push_str(&mut self.debug_log, command.as_str());
                push_char(&mut self.debug_log, '\n');
                proof {
                    assert(self.commands() =~= old(self).commands().drop_first());
                    assert(self.debug_log@ =~= log0 + indent(depth as int) + command@ + seq!['\n']);
                }
                Some(command)
            },
            None => {
                proof {
                    assert(self.commands() =~= old(self).commands());
                }
                None
            },
        }
    }

    /// Queues each command in turn (see `push`).
    pub fn extend(&mut self, commands: Vec<String>)
        requires
            old(self).wf(),
            old(self).scopes().last() + commands@.len() < u32::MAX,
        ensures
            final(self).wf(),
            final(self).commands() == old(self).commands().take(old(self).scopes().last() as int)
                + strings_view(commands@) + old(self).commands().skip(old(self).scopes().last() as int),
            final(self).scopes() == old(self).scopes().update(
                old(self).scopes().len() - 1,
                (old(self).scopes().last() + commands@.len()) as u32,
            ),
            final(self).log() == old(self).log(),
    {
        let mut commands = commands;
        let ghost all = commands@;
        let ghost n0 = old(self).scopes().last() as int;
        let ghost old_cmds = old(self).commands();
        let mut i: usize = 0;
        proof {
            lemma_sum_le_last(old(self).scopes());
            assert(old_cmds.take(n0) + strings_view(all.take(0)) + old_cmds.skip(n0) =~= old_cmds);
            assert(old(self).scopes().update(old(self).scopes().len() - 1, n0 as u32) =~= old(self).scopes());
        }
        while commands.len() > 0
            invariant
                self.wf(),
                all.len() == i + commands@.len(),
                commands@ == all.skip(i as int),
                n0 + all.len() < u32::MAX,
                self.scopes().len() == old(self).scopes().len(),
                self.scopes() == old(self).scopes().update(old(self).scopes().len() - 1, (n0 + i) as u32),
                self.commands() == old_cmds.take(n0) + strings_view(all.take(i as int)) + old_cmds.skip(n0),
                self.log() == old(self).log(),
                0 <= n0 <= old_cmds.len(),
            decreases commands@.len(),
        {
            let command = commands.remove(0);
            self.push(command);
            i += 1;
            proof {
                assert(all.skip(i - 1)[0] == command);
                assert(strings_view(all.take(i as int)) =~= strings_view(all.take(i - 1)).push(command@));
                assert(self.commands() =~= old_cmds.take(n0) + strings_view(all.take(i as int)) + old_cmds.skip(
                    n0,
                ));
                assert(self.scopes() =~= old(self).scopes().update(
                    old(self).scopes().len() - 1,
                    (n0 + i) as u32,
                ));
                assert(commands@ =~= all.skip(i as int));
            }
        }
        proof {
            assert(all.take(i as int) =~= all);
        }
    }

    /// Drops every command and scope but a new first scope, and empties the log.
    pub fn clear(&mut self)
        ensures
            final(self).wf(),
            final(self).commands() == Seq::<Seq<char>>::empty(),
            final(self).scopes() == seq![0u32],
            final(self).log() == Seq::<char>::empty(),
    {
        self.queue.clear();
        self.scope_stack = Vec::new();
        self.scope_stack.push(Scope { remaining_commands: 0 });
        self.debug_log = String::new();
        proof {
            assert(self.commands() =~= Seq::<Seq<char>>::empty());
            assert(self.scopes() =~= seq![0u32]);
            lemma_sum_single(0u32);
        }
    }

    /// Whether no command is waiting.
    pub fn is_empty(&self) -> (r: bool)
        ensures
            r == (self.commands().len() == 0),
    {
        self.queue.len() == 0
    }

    /// Opens a new scope: the commands pushed from now on run before those
    /// already queued.
    pub fn start_scope(&mut self)
        requires
            old(self).wf(),
        ensures
            final(self).wf(),
            final(self).scopes() == old(self).scopes().push(0u32),
            final(self).commands() == old(self).commands(),
            final(self).log() == old(self).log(),
    {
        self.scope_stack.push(Scope { remaining_commands: 0 });
        proof {
            assert(self.scopes() =~= old(self).scopes().push(0u32));
            assert(self.scopes().drop_last() =~= old(self).scopes());
        }
    }
}

/// A well-formed queue has a current scope.
pub proof fn lemma_queue_has_scope(queue: CommandQueue)
    requires
        queue.wf(),
    ensures
        queue.scopes().len() >= 1,
{
}

/// The commands of the current scope are at the front of the queue.
proof fn lemma_sum_le_last(scopes: Seq<u32>)
    requires
        scopes.len() >= 1,
    ensures
        scopes.last() <= sum_remaining(scopes),
        sum_remaining(scopes) >= 0,
    decreases scopes.len(),
{
    assert(sum_remaining(scopes) == sum_remaining(scopes.drop_last()) + scopes.last());
    if scopes.len() > 1 {
        lemma_sum_nonneg(scopes.drop_last());
    } else {
        assert(scopes.drop_last() =~= Seq::<u32>::empty());
        assert(sum_remaining(scopes.drop_last()) == 0);
    }
}

proof fn lemma_sum_nonneg(scopes: Seq<u32>)
    ensures
        sum_remaining(scopes) >= 0,
    decreases scopes.len(),
{
    if scopes.len() > 0 {
        lemma_sum_nonneg(scopes.drop_last());
    }
}

impl Default for CommandQueue {
    fn default() -> (r: Self)
        ensures
            r.wf(),
            r.commands() == Seq::<Seq<char>>::empty(),
            r.scopes() == seq![0u32],
            r.log() == Seq::<char>::empty(),
    {
        Self::new()
    }
}

/// The name of a command and its options: split at the first space; all
/// of it is the name when there is none.
pub open spec fn command_parts(command: Seq<char>) -> (Seq<char>, Seq<char>) {
    let k = command.index_of_first(' ');
    match k {
        Some(k) => (command.take(k), command.skip(k + 1)),
        None => (command, Seq::empty()),
    }
}

/// Splits a command into its name and its options (see `command_parts`).
pub fn parse_command(command: &str) -> (r: (&str, &str))
    ensures
        r.0@ == command_parts(command@).0,
        r.1@ == command_parts(command@).1,
{
    let chars = chars_of(command);
    let mut k: usize = 0;
    while k < chars.len() && chars[k] != ' '
        invariant
            chars@ == command@,
            k <= chars.len(),
            forall|j: int| 0 <= j < k ==> chars@[j] != ' ',
        decreases chars.len() - k,
    {
        k += 1;
    }
    proof {
        let idx = command@.index_of_first(' ');
        command@.index_of_first_ensures(' ');
        if k < chars.len() {
            assert(command@[k as int] == ' ');
        }
    }
    if k < chars.len() {
        let (name, rest) = split_at_char(command, k);
        let (_, options) = split_at_char(rest, 1);
        proof {
            assert(rest@.skip(1) =~= command@.skip(k + 1));
        }
        (name, options)
    } else {
        proof {
            reveal_strlit("");
            assert(command@.take(k as int) =~= command@);
        }
        (command, "")
    }
}

/// Whether `s` starts with `prefix`.
pub open spec fn has_prefix(s: Seq<char>, prefix: Seq<char>) -> bool {
    prefix.len() <= s.len() && s.take(prefix.len() as int) == prefix
}

/// Whether the command named `name` is an event that the editor raises by
/// itself when a state changes, and that needs no registration.
pub open spec fn is_hardcoded_event_spec(name: Seq<char>) -> bool {
    has_prefix(name, "state-modified:"@) || has_prefix(name, "state-before-modified:"@) || has_prefix(
        name,
        "state-after-modified:"@,
    )
}

/// The commands that can be run, by name, each with the function that
/// runs it; an event runs nothing.
pub struct CommandRegistry<F> {
    commands: InsertOrderMap<Option<F>>,
}

impl<F> CommandRegistry<F> {
    /// No name is registered twice.
    pub closed spec fn wf(self) -> bool {
        self.commands.wf()
    }

    /// The function of each registered name (`None` for an event).
    pub closed spec fn commands_view(self) -> Map<Seq<char>, Option<F>> {
        self.commands.map_view()
    }

    /// No command registered.
    pub fn new() -> (r: Self)
        ensures
            r.wf(),
            r.commands_view() == Map::<Seq<char>, Option<F>>::empty(),
    {
        CommandRegistry { commands: InsertOrderMap::new() }
    }

    /// Registers `func` under `name`, in place of what was there.
    pub fn register(&mut self, name: String, func: F)
        requires
            old(self).wf(),
        ensures
            final(self).wf(),
            final(self).commands_view() == old(self).commands_view().insert(name@, Some(func)),
    {
        self.commands.insert(name, Some(func));
    }

    /// Registers `name` as an event: a command that runs nothing.
    pub fn register_event(&mut self, name: String)
        requires
            old(self).wf(),
        ensures
            final(self).wf(),
            final(self).commands_view() == old(self).commands_view().insert(name@, None),
    {
        self.commands.insert(name, None);
    }

    /// What running `command` means: `Ok(Some((func, options)))` when its
    /// name is registered with a function, which the caller then runs on
    /// the options; `Ok(None)` for an event, registered or raised by the
    /// editor, which runs nothing; an error for an unknown name.
    pub fn execute_command<'a>(&'a self, command: &'a str) -> (r: Result<Option<(&'a F, &'a str)>, String>)
        requires
            self.wf(),
        ensures
            ({
                let (name, options) = command_parts(command@);
                if self.commands_view().contains_key(name) {
                    match self.commands_view()[name] {
                        Some(f) => r matches Ok(Some((g, o))) && *g == f && o@ == options,
                        None => r == Ok::<Option<(&F, &str)>, String>(None),
                    }
                } else if is_hardcoded_event_spec(name) {
                    r == Ok::<Option<(&F, &str)>, String>(None)
                } else {
                    r matches Err(e) && e@ == "unknown command '"@ + name + "'"@
                }
            }),
    {
        let (name, options) = parse_command(command);
        match self.commands.get(name) {
            Some(Some(f)) => Ok(Some((f, options))),
            Some(None) => Ok(None),
            None => {
                if self.is_hardcoded_event(command) {
                    Ok(None)
                } else {
                    let mut e = String::new();
                    push_str(&mut e, "unknown command '");
                    push_str(&mut e, name);
                    push_str(&mut e, "'");
                    Err(e)
                }
            },
        }
    }

    /// Runs `command` on `ctx`: when its name is registered with a function,
    /// calls that function once on the command's options and `ctx` and gives
    /// back `Ok` of what it returned; gives `Ok(Ok(()))` for an event,
    /// registered or raised by the editor; an error for an unknown name.
    pub fn run_command<C>(&self, command: &str, ctx: C) -> (r: Result<Result<(), String>, String>) where
        F: Fn(&str, C) -> Result<(), String>,

        requires
            self.wf(),
            forall|n: Seq<char>, o: &str|
                #![trigger self.commands_view()[n], o@]
                self.commands_view().contains_key(n) && self.commands_view()[n] is Some ==> call_requires(
                    self.commands_view()[n]->Some_0,
                    (o, ctx),
                ),
        ensures
            ({
                let (name, options) = command_parts(command@);
                if self.commands_view().contains_key(name) {
                    match self.commands_view()[name] {
                        Some(f) => r matches Ok(res) && exists|o: &str|
                            o@ == options && #[trigger] call_ensures(f, (o, ctx), res),
                        None => r == Ok::<Result<(), String>, String>(Ok(())),
                    }
                } else if is_hardcoded_event_spec(name) {
                    r == Ok::<Result<(), String>, String>(Ok(()))
                } else {
                    r matches Err(e) && e@ == "unknown command '"@ + name + "'"@
                }
            }),
    {
        match self.execute_command(command) {
            Ok(Some((f, options))) => {
                let res = f(options, ctx);
                Ok(res)
            },
            Ok(None) => Ok(Ok(())),
            Err(e) => Err(e),
        }
    }

    /// Whether `command` is an event that the editor raises by itself.
    fn is_hardcoded_event(&self, command: &str) -> (r: bool)
        ensures
            r == is_hardcoded_event_spec(command_parts(command@).0),
    {
        let (name, _) = parse_command(command);
        starts_with(name, "state-modified:") || starts_with(name, "state-before-modified:") || starts_with(
            name,
            "state-after-modified:",
        )
    }
}

/// The command that a hook runs for a command with options `options`: the
/// hook as it is when it has options of its own, else with those options.
pub open spec fn hook_command(hook: Seq<char>, options: Seq<char>) -> Seq<char> {
    if hook.contains(' ') {
        hook
    } else {
        hook + seq![' '] + options
    }
}

/// The commands that the `hooks` mapping of `applied` runs after `command`.
pub open spec fn hooks_spec(applied: Map<Seq<char>, Map<Seq<char>, Seq<String>>>, command: Seq<char>) -> Seq<
    Seq<char>,
> {
    let (name, options) = command_parts(command);
    if applied.contains_key("hooks"@) && applied["hooks"@].contains_key(name) {
        applied["hooks"@][name].map_values(|h: String| hook_command(h@, options))
    } else {
        Seq::empty()
    }
}

/// Whether `s` holds a space.
fn has_space(s: &str) -> (r: bool)
    ensures
        r == s@.contains(' '),
{
    let chars = chars_of(s);
    let mut i: usize = 0;
    while i < chars.len()
        invariant
            chars@ == s@,
            i <= chars@.len(),
            forall|j: int| 0 <= j < i ==> chars@[j] != ' ',
        decreases chars@.len() - i,
    {
        if chars[i] == ' ' {
            proof {
                assert(s@[i as int] == ' ');
            }
            return true;
        }
        i += 1;
    }
    false
}

/// The commands that the configured hooks of `command` run after it (see
/// `hooks_spec`).
pub fn hooks_of_command(config: &Config, command: &str) -> (r: Vec<String>)
    requires
        config.wf(),
    ensures
        strings_view(r@) == hooks_spec(config.applied(), command@),
{
    let mut acc: Vec<String> = Vec::new();
    let (command_name, command_options) = parse_command(command);
    let hooks_map = match config.get("hooks") {
        Some(h) => h,
        None => {
            proof {
                assert(strings_view(acc@) =~= hooks_spec(config.applied(), command@));
            }
            return acc;
        },
    };
    let hooks = match hooks_map.get(command_name) {
        Some(h) => h,
        None => {
            proof {
                assert(strings_view(acc@) =~= hooks_spec(config.applied(), command@));
            }
            return acc;
        },
    };
    let ghost target = hooks_spec(config.applied(), command@);
    proof {
        assert(hooks_map.map_view().contains_key(command_name@));
        assert(hooks@ == config.applied()["hooks"@][command_name@]);
    }
    let mut i: usize = 0;
    while i < hooks.len()
        invariant
            i <= hooks@.len(),
            target == hooks@.map_values(|h: String| hook_command(h@, command_options@)),
            strings_view(acc@) == target.take(i as int),
        decreases hooks@.len() - i,
    {
        let h = hooks[i].as_str();
        let mut c = String::new();
        push_str(&mut c, h);
        if !has_space(h) {
            push_char(&mut c, ' ');
            push_str(&mut c, command_options);
        }
        proof {
            assert(c@ =~= hook_command(h@, command_options@));
        }
        let ghost before = acc@;
        acc.push(c);
        proof {
            assert(strings_view(acc@) =~= strings_view(before).push(c@));
            assert(target.take(i as int + 1) =~= target.take(i as int).push(target[i as int]));
        }
        i += 1;
    }
    proof {
        assert(target.take(hooks@.len() as int) =~= target);
    }
    acc
}

/// Registers the events that the editor raises: started, resized, input,
/// time-tick, buffer-opened, buffer-modified, buffer-closed,
/// selections-modified and completion-sources-modified.
pub fn register_builtin_events<F>(registry: &mut CommandRegistry<F>)
    requires
        old(registry).wf(),
    ensures
        final(registry).wf(),
        final(registry).commands_view() == old(registry).commands_view().insert("started"@, None).insert(
            "resized"@,
            None,
        ).insert("input"@, None).insert("time-tick"@, None).insert("buffer-opened"@, None).insert(
            "buffer-modified"@,
            None,
        ).insert("buffer-closed"@, None).insert("selections-modified"@, None).insert(
            "completion-sources-modified"@,
            None,
        ),
{
    registry.register_event(crate::text::to_owned_string("started"));
    registry.register_event(crate::text::to_owned_string("resized"));
    registry.register_event(crate::text::to_owned_string("input"));
    registry.register_event(crate::text::to_owned_string("time-tick"));
    registry.register_event(crate::text::to_owned_string("buffer-opened"));
    registry.register_event(crate::text::to_owned_string("buffer-modified"));
    registry.register_event(crate::text::to_owned_string("buffer-closed"));
    registry.register_event(crate::text::to_owned_string("selections-modified"));
    registry.register_event(crate::text::to_owned_string("completion-sources-modified"));
}

} // verus!
