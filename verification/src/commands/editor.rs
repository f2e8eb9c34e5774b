//! The editing commands: what each does to the focused buffer, to the
//! selections of its views and to the command queue.

use vstd::prelude::*;

use crate::command::{CommandQueue, lemma_queue_has_scope};
use crate::command::options::ParsedOptions;
use crate::position::{Offset, Position, sat_add_i32};

use crate::range::Range;
use crate::selection::Selection;
use crate::state::edit_model::{
    can_delete_in, deleted_span_in, edit_allowed, limit_position_in, lines_after_delete, lines_after_edit, selections_after_edit,
};
use crate::state::lines::{delete_lines, join_lines, lemma_delete_lines, lemma_insert_lines, split_lines};
use crate::state::text_buffer::{TextBuffer, edit_changes, moved_horizontally_in, next_version, version_after_edit};
use crate::config_parser::token::{lemma_prefix_len, lemma_prefix_len_bounds, prefix_len};
use crate::unicode::{char_is_whitespace, lemma_suffix_len, suffix_len, trimmed, unicode_ws_pred};
use crate::text::{chars_of, parse_i32, parse_i32_spec, push_char, str_eq, to_owned_string};

verus! {

/// The selections of every view after an edit (see `selections_after_edit`).
pub open spec fn views_after_edit(
    all: Map<u64, Seq<Selection>>,
    lines: Seq<Seq<char>>,
    range: Range,
    text: Seq<char>,
) -> Map<u64, Seq<Selection>> {
    Map::new(|v: u64| all.contains_key(v), |v: u64| selections_after_edit(all[v], lines, range, text))
}

/// The lines and the selections of every view after inserting `text` at the
/// cursor of each of the first `n` selections of `view`, in order, each
/// cursor taken where the insertions before it moved it.
pub open spec fn inserted_at_cursors(
    lines: Seq<Seq<char>>,
    all: Map<u64, Seq<Selection>>,
    view: u64,
    text: Seq<char>,
    n: nat,
) -> (Seq<Seq<char>>, Map<u64, Seq<Selection>>)
    decreases n,
{
    if n == 0 {
        (lines, all)
    } else {
        let prev = inserted_at_cursors(lines, all, view, text, (n - 1) as nat);
        let at = prev.1[view][n - 1].cursor;
        let range = Range { start: at, end: at };
        (lines_after_edit(prev.0, range, text), views_after_edit(prev.1, prev.0, range, text))
    }
}

/// The content version `v` moved on `k` times (see `next_version`).
pub open spec fn version_bumped(v: i32, k: nat) -> i32
    decreases k,
{
    if k == 0 {
        v
    } else {
        next_version(version_bumped(v, (k - 1) as nat))
    }
}

/// The path of a buffer as text, empty when it has none.
pub open spec fn path_text(buffer: TextBuffer) -> Seq<char> {
    match buffer.path {
        Some(p) => p@,
        None => Seq::<char>::empty(),
    }
}

/// The queue after the events that follow an edit of the buffer at `path`:
/// `buffer-modified <path>`, then `selections-modified `, both queued in the
/// current scope.
pub open spec fn edit_events_queued(before: CommandQueue, after: CommandQueue, path: Seq<char>) -> bool {
    let k = before.scopes().last() as int;
    &&& after.wf()
    &&& after.commands() == before.commands().insert(k, "buffer-modified"@ + seq![' '] + path).insert(
        k + 1,
        "selections-modified"@ + seq![' '],
    )
    &&& after.scopes() == before.scopes().update(before.scopes().len() - 1, (before.scopes().last() + 2) as u32)
    &&& after.log() == before.log()
}

/// The character that `insert-char` inserts for its argument: a line feed
/// for the two characters `\n`, otherwise the first character.
pub open spec fn char_argument(opt: Seq<char>) -> char {
    if opt == seq!['\\', 'n'] {
        '\n'
    } else {
        opt[0]
    }
}

/// `s` with each `\n` (a backslash and an `n`) replaced by a line feed, from
/// left to right.
pub open spec fn unescape_newlines(s: Seq<char>) -> Seq<char>
    decreases s.len(),
{
    if s.len() == 0 {
        s
    } else if s.len() >= 2 && s[0] == '\\' && s[1] == 'n' {
        seq!['\n'] + unescape_newlines(s.skip(2))
    } else {
        seq![s[0]] + unescape_newlines(s.skip(1))
    }
}

proof fn lemma_unescape_len(s: Seq<char>)
    ensures
        unescape_newlines(s).len() <= s.len(),
    decreases s.len(),
{
    if s.len() >= 2 && s[0] == '\\' && s[1] == 'n' {
        lemma_unescape_len(s.skip(2));
    } else if s.len() > 0 {
        lemma_unescape_len(s.skip(1));
    }
}

/// `s` with each `\n` replaced by a line feed (see `unescape_newlines`).
pub fn unescaped_newlines(s: &str) -> (r: String)
    ensures
        r@ == unescape_newlines(s@),
{
    let chars = chars_of(s);
    let mut r = String::new();
    let mut i: usize = 0;
    proof {
        assert(chars@.skip(0) =~= s@);
        assert(r@ + unescape_newlines(s@) =~= unescape_newlines(s@));
    }
    while i < chars.len()
        invariant
            chars@ == s@,
            i <= chars.len(),
            r@ + unescape_newlines(chars@.skip(i as int)) == unescape_newlines(s@),
        decreases chars.len() - i,
    {
        let ghost rest = chars@.skip(i as int);
        if chars[i] == '\\' && i + 1 < chars.len() && chars[i + 1] == 'n' {
            push_char(&mut r, '\n');
            proof {
                assert(rest.skip(2) =~= chars@.skip(i + 2));
                assert(unescape_newlines(rest) == seq!['\n'] + unescape_newlines(rest.skip(2)));
            }
            i += 2;
        } else {
            push_char(&mut r, chars[i]);
            proof {
                assert(rest.skip(1) =~= chars@.skip(i + 1));
                assert(unescape_newlines(rest) == seq![chars@[i as int]] + unescape_newlines(rest.skip(1)));
            }
            i += 1;
        }
        proof {
            assert(r@ + unescape_newlines(chars@.skip(i as int)) =~= unescape_newlines(s@));
        }
    }
    proof {
        assert(chars@.skip(i as int) =~= Seq::<char>::empty());
        assert(r@ + unescape_newlines(chars@.skip(i as int)) =~= r@);
    }
    r
}

/// An insertion at an empty range keeps at least one line and adds the
/// inserted characters to the text.
proof fn lemma_insert_grows(lines: Seq<Seq<char>>, at: Position, text: Seq<char>)
    requires
        lines.len() >= 1,
    ensures
        lines_after_edit(lines, Range { start: at, end: at }, text).len() >= 1,
        join_lines(lines_after_edit(lines, Range { start: at, end: at }, text)).len() == join_lines(lines).len()
            + text.len(),
{
    let range = Range { start: at, end: at };
    assert(lines_after_delete(lines, range) == lines);
    if text.len() > 0 {
        let a = limit_position_in(lines, at);
        lemma_insert_lines(lines, a.row as int, a.column as int, text);
        assert(split_lines(text).len() >= 1);
    }
}

/// Inserts `text` at the cursor of each selection of `view`, in order (see
/// `inserted_at_cursors`).
fn insert_at_cursors(text: &str, buffer: &mut TextBuffer, view: u64)
    requires
        old(buffer).wf(),
        old(buffer).selections.view_spec().contains_key(view),
        old(buffer).content().len() + old(buffer).selections.view_spec()[view].len() * text@.len() < i32::MAX,
    ensures
        final(buffer).wf(),
        ({
            let res = inserted_at_cursors(
                old(buffer).lines_view(),
                old(buffer).selections.view_spec(),
                view,
                text@,
                old(buffer).selections.view_spec()[view].len(),
            );
            &&& final(buffer).lines_view() == res.0
            &&& final(buffer).selections.view_spec() == res.1
        }),
        final(buffer).path == old(buffer).path,
        final(buffer).content_version == version_bumped(
            old(buffer).content_version,
            if text@.len() > 0 { old(buffer).selections.view_spec()[view].len() } else { 0 },
        ),
        final(buffer).dirty == (old(buffer).dirty || text@.len() > 0),
{
    let ghost l0 = buffer.lines_view();
    let ghost m0 = buffer.selections.view_spec();
    let ghost c0 = buffer.content().len();
    let ghost n = m0[view].len();
    let sel_count = match buffer.view_selections(view) {
        Some(sels) => sels.count(),
        None => 0,
    };
    let mut i: usize = 0;
    while i < sel_count
        invariant
            i <= sel_count,
            sel_count == n,
            buffer.wf(),
            buffer.lines_view() == inserted_at_cursors(l0, m0, view, text@, i as nat).0,
            buffer.selections.view_spec() == inserted_at_cursors(l0, m0, view, text@, i as nat).1,
            buffer.selections.view_spec().contains_key(view),
            buffer.selections.view_spec()[view].len() == n,
            buffer.content().len() == c0 + i * text@.len(),
            c0 + n * text@.len() < i32::MAX,
            buffer.path == old(buffer).path,
            n >= 1,
            buffer.content_version == version_bumped(
                old(buffer).content_version,
                if text@.len() > 0 { i as nat } else { 0 },
            ),
            buffer.dirty == (old(buffer).dirty || (i > 0 && text@.len() > 0)),
        decreases sel_count - i,
    {
        let sel = match buffer.view_selections(view) {
            Some(sels) => sels.get(i),
            None => None,
        };
        let at = match sel {
            Some(s) => s.cursor,
            None => Position::zero(),
        };
        let ghost lines = buffer.lines_view();
        let ghost m = buffer.selections.view_spec();
        proof {
            lemma_insert_grows(lines, at, text@);
            assert((i + 1) * text@.len() <= n * text@.len()) by (nonlinear_arith)
                requires
                    i + 1 <= n,
            ;
            assert((i + 1) * text@.len() == i * text@.len() + text@.len()) by (nonlinear_arith);
        }
        let _ = buffer.insert_str_at(to_owned_string(text), at);
        proof {
            let range = Range { start: at, end: at };
            assert(buffer.selections.view_spec() =~= views_after_edit(m, lines, range, text@));
            assert(at == inserted_at_cursors(l0, m0, view, text@, i as nat).1[view][i as int].cursor);
        }
        i += 1;
    }
}

/// Emits the events that follow an edit of the buffer at `path`.
pub(crate) fn emit_edit_events(queue: &mut CommandQueue, path: &str)
    requires
        old(queue).wf(),
        old(queue).scopes().last() + 2 <= u32::MAX,
    ensures
        edit_events_queued(*old(queue), *final(queue), path@),
{
    proof {
        lemma_queue_has_scope(*queue);
    }
    queue.emit(to_owned_string("buffer-modified"), path);
    proof {
        lemma_queue_has_scope(*queue);
        assert(queue.scopes().last() == old(queue).scopes().last() + 1);
    }
    queue.emit(to_owned_string("selections-modified"), "");
    proof {
        reveal_strlit("");
        assert("selections-modified"@ + seq![' '] + ""@ =~= "selections-modified"@ + seq![' ']);
        let o = old(queue).scopes();
        assert(queue.scopes() =~= o.update(o.len() - 1, (o.last() + 2) as u32));
    }
}

/// `insert-char`: inserts the character of `opt` (see `char_argument`) at
/// the cursor of each selection of `view`, then emits `buffer-modified` and
/// `selections-modified`. Fails, changing nothing, when `opt` is empty.
pub fn insert_char(opt: &str, buffer: &mut TextBuffer, view: u64, queue: &mut CommandQueue) -> (r: Result<
    (),
    String,
>)
    requires
        old(buffer).wf(),
        old(buffer).selections.view_spec().contains_key(view),
        old(buffer).content().len() + old(buffer).selections.view_spec()[view].len() < i32::MAX,
        old(queue).wf(),
        old(queue).scopes().last() + 2 <= u32::MAX,
    ensures
        opt@.len() == 0 ==> (r matches Err(e) && e@ == "not a char: "@),
        opt@.len() == 0 ==> *final(buffer) == *old(buffer) && *final(queue) == *old(queue),
        opt@.len() > 0 ==> ({
            let res = inserted_at_cursors(
                old(buffer).lines_view(),
                old(buffer).selections.view_spec(),
                view,
                seq![char_argument(opt@)],
                old(buffer).selections.view_spec()[view].len(),
            );
            &&& r is Ok
            &&& final(buffer).wf()
            &&& final(buffer).dirty
            &&& final(buffer).content_version == version_bumped(
                old(buffer).content_version,
                old(buffer).selections.view_spec()[view].len(),
            )
            &&& final(buffer).lines_view() == res.0
            &&& final(buffer).selections.view_spec() == res.1
            &&& final(buffer).path == old(buffer).path
            &&& edit_events_queued(*old(queue), *final(queue), path_text(*old(buffer)))
        }),
{
    let chars = chars_of(opt);
    if chars.len() == 0 {
        let e = to_owned_string("not a char: ");
        proof {
            reveal_strlit("not a char: ");
        }
        return Err(e);
    }
    let ch = if str_eq(opt, "\\n") {
        '\n'
    } else {
        chars[0]
    };
    proof {
        reveal_strlit("\\n");
        assert("\\n"@ =~= seq!['\\', 'n']);
        assert(ch == char_argument(opt@));
    }
    let mut text = String::new();
    push_char(&mut text, ch);
    proof {
        assert(text@ =~= seq![ch]);
        assert(old(buffer).selections.view_spec()[view].len() * 1 == old(buffer).selections.view_spec()[view].len());
    }
    insert_at_cursors(text.as_str(), buffer, view);
    emit_edit_events(queue, buffer.path_str());
    Ok(())
}

/// `insert-str`: inserts `opt`, each `\n` in it replaced by a line feed, at
/// the cursor of each selection of `view`, then emits `buffer-modified` and
/// `selections-modified`.
pub fn insert_str(opt: &str, buffer: &mut TextBuffer, view: u64, queue: &mut CommandQueue) -> (r: Result<
    (),
    String,
>)
    requires
        old(buffer).wf(),
        old(buffer).selections.view_spec().contains_key(view),
        old(buffer).content().len() + old(buffer).selections.view_spec()[view].len() * unescape_newlines(opt@).len()
            < i32::MAX,
        old(queue).wf(),
        old(queue).scopes().last() + 2 <= u32::MAX,
    ensures
        ({
            let res = inserted_at_cursors(
                old(buffer).lines_view(),
                old(buffer).selections.view_spec(),
                view,
                unescape_newlines(opt@),
                old(buffer).selections.view_spec()[view].len(),
            );
            &&& r is Ok
            &&& final(buffer).wf()
            &&& final(buffer).dirty == (old(buffer).dirty || unescape_newlines(opt@).len() > 0)
            &&& final(buffer).content_version == version_bumped(
                old(buffer).content_version,
                if unescape_newlines(opt@).len() > 0 { old(buffer).selections.view_spec()[view].len() } else { 0 },
            )
            &&& final(buffer).lines_view() == res.0
            &&& final(buffer).selections.view_spec() == res.1
            &&& final(buffer).path == old(buffer).path
            &&& edit_events_queued(*old(queue), *final(queue), path_text(*old(buffer)))
        }),
{
    let text = unescaped_newlines(opt);
    insert_at_cursors(text.as_str(), buffer, view);
    emit_edit_events(queue, buffer.path_str());
    Ok(())
}

/// The lines and the selections of every view after deleting the last `k`
/// selections of `sels`, from the last one back.
pub open spec fn deleted_from_last(
    lines: Seq<Seq<char>>,
    all: Map<u64, Seq<Selection>>,
    sels: Seq<Selection>,
    k: nat,
) -> (Seq<Seq<char>>, Map<u64, Seq<Selection>>)
    decreases k,
{
    if k == 0 {
        (lines, all)
    } else {
        let prev = deleted_from_last(lines, all, sels, (k - 1) as nat);
        let range = sels[sels.len() - k].to_range_spec();
        (
            lines_after_edit(prev.0, range, Seq::<char>::empty()),
            views_after_edit(prev.1, prev.0, range, Seq::<char>::empty()),
        )
    }
}

/// The content version and the dirty flag, from `v` and `dirty`, after the
/// deletions of the last `k` selections of `sels` (see `deleted_from_last`):
/// each deletion that removes characters moves the version on and makes
/// the buffer dirty.
pub open spec fn deleted_version(
    lines: Seq<Seq<char>>,
    all: Map<u64, Seq<Selection>>,
    sels: Seq<Selection>,
    v: i32,
    dirty: bool,
    k: nat,
) -> (i32, bool)
    decreases k,
{
    if k == 0 {
        (v, dirty)
    } else {
        let prev = deleted_version(lines, all, sels, v, dirty, (k - 1) as nat);
        let st = deleted_from_last(lines, all, sels, (k - 1) as nat);
        let range = sels[sels.len() - k].to_range_spec();
        (
            version_after_edit(prev.0, st.0, range, Seq::<char>::empty()),
            prev.1 || edit_changes(st.0, range, Seq::<char>::empty()),
        )
    }
}

/// Whether deletion number `j` (counted from 0, from the last selection of
/// `sels` back) is defined on what the deletions before it left.
pub open spec fn delete_step_allowed(
    lines: Seq<Seq<char>>,
    all: Map<u64, Seq<Selection>>,
    sels: Seq<Selection>,
    j: nat,
) -> bool {
    edit_allowed(
        deleted_from_last(lines, all, sels, j).0,
        sels[sels.len() - 1 - j].to_range_spec(),
        Seq::<char>::empty(),
    )
}

/// `delete`: deletes the characters of each selection of `view`, from the
/// last selection back, the selections taken as they were before the first
/// deletion; then emits `buffer-modified` and `selections-modified`. Stops
/// with an error at the first selection that lies past the end of a line,
/// the deletions before it done.
pub fn delete(buffer: &mut TextBuffer, view: u64, queue: &mut CommandQueue) -> (r: Result<(), String>)
    requires
        old(buffer).wf(),
        old(buffer).selections.view_spec().contains_key(view),
        old(queue).wf(),
        old(queue).scopes().last() + 2 <= u32::MAX,
    ensures
        final(buffer).wf(),
        final(buffer).path == old(buffer).path,
        ({
            let l0 = old(buffer).lines_view();
            let m0 = old(buffer).selections.view_spec();
            let s0 = m0[view];
            let n = s0.len();
            let v0 = old(buffer).content_version;
            let d0 = old(buffer).dirty;
            &&& (r is Ok <==> forall|j: nat| j < n ==> delete_step_allowed(l0, m0, s0, j))
            &&& r is Ok ==> (final(buffer).content_version, final(buffer).dirty) == deleted_version(l0, m0, s0, v0, d0, n)
            &&& r matches Err(_) ==> exists|j: nat|
                j < n && !delete_step_allowed(l0, m0, s0, j) && (forall|i: nat|
                    i < j ==> delete_step_allowed(l0, m0, s0, i)) && (final(buffer).content_version, final(buffer).dirty)
                    == deleted_version(l0, m0, s0, v0, d0, j)
            &&& r is Ok ==> final(buffer).lines_view() == deleted_from_last(l0, m0, s0, n).0
                && final(buffer).selections.view_spec() == deleted_from_last(l0, m0, s0, n).1
                && edit_events_queued(*old(queue), *final(queue), path_text(*old(buffer)))
            &&& r matches Err(e) ==> e@ == "selection lies outside of the buffer's content"@ && *final(queue)
                == *old(queue) && exists|j: nat|
                j < n && !delete_step_allowed(l0, m0, s0, j) && (forall|i: nat|
                    i < j ==> delete_step_allowed(l0, m0, s0, i)) && final(buffer).lines_view()
                    == deleted_from_last(l0, m0, s0, j).0 && final(buffer).selections.view_spec()
                    == deleted_from_last(l0, m0, s0, j).1
        }),
{
    let ghost l0 = buffer.lines_view();
    let ghost m0 = buffer.selections.view_spec();
    let ghost s0 = m0[view];
    let snapshot = match buffer.view_selections(view) {
        Some(sels) => sels.clone(),
        None => crate::selection::Selections::new(),
    };
    let sel_count = snapshot.count();
    let mut k: usize = 0;
    while k < sel_count
        invariant
            k <= sel_count,
            sel_count == s0.len(),
            snapshot.all_spec() == s0,
            s0 == m0[view],
            l0 == old(buffer).lines_view(),
            m0 == old(buffer).selections.view_spec(),
            buffer.wf(),
            buffer.path == old(buffer).path,
            buffer.lines_view() == deleted_from_last(l0, m0, s0, k as nat).0,
            buffer.selections.view_spec() == deleted_from_last(l0, m0, s0, k as nat).1,
            (buffer.content_version, buffer.dirty) == deleted_version(
                l0,
                m0,
                s0,
                old(buffer).content_version,
                old(buffer).dirty,
                k as nat,
            ),
            forall|i: nat| i < k ==> delete_step_allowed(l0, m0, s0, i),
            *queue == *old(queue),
        decreases sel_count - k,
    {
        let sel = match snapshot.get(sel_count - 1 - k) {
            Some(s) => s,
            None => Selection::new(),
        };
        let range = sel.to_range();
        let ghost lines = buffer.lines_view();
        let ghost m = buffer.selections.view_spec();
        if !(range.start == range.end || buffer.can_delete_range(range)) {
            let e = to_owned_string("selection lies outside of the buffer's content");
            proof {
                reveal_strlit("selection lies outside of the buffer's content");
                let j = k as nat;
                assert(!delete_step_allowed(l0, m0, s0, j));
                assert(j < s0.len() && !delete_step_allowed(l0, m0, s0, j) && (forall|i: nat|
                    i < j ==> delete_step_allowed(l0, m0, s0, i)) && buffer.lines_view() == deleted_from_last(
                    l0,
                    m0,
                    s0,
                    j,
                ).0 && buffer.selections.view_spec() == deleted_from_last(l0, m0, s0, j).1);
            }
            return Err(e);
        }
        proof {
            assert(delete_step_allowed(l0, m0, s0, k as nat));
        }
        let _ = buffer.delete_selection(&sel);
        proof {
            assert(buffer.selections.view_spec() =~= views_after_edit(m, lines, range, Seq::<char>::empty()));
            assert(sel == s0[s0.len() - (k + 1)]);
        }
        k += 1;
    }
    emit_edit_events(queue, buffer.path_str());
    Ok(())
}

/// How `look` moves the view for one character of its argument, as (column,
/// row) steps: up, down, left or right by one; `None` for any other
/// character.
pub open spec fn look_step(c: char) -> Option<(int, int)> {
    if c == 'u' {
        Some((0, -1))
    } else if c == 'd' {
        Some((0, 1))
    } else if c == 'l' {
        Some((-1, 0))
    } else if c == 'r' {
        Some((1, 0))
    } else {
        None
    }
}

/// The sum of the steps of the characters of `opt` (see `look_step`), or the
/// first character that is not a step.
pub open spec fn look_offset(opt: Seq<char>) -> Result<(int, int), char>
    decreases opt.len(),
{
    if opt.len() == 0 {
        Ok((0, 0))
    } else {
        match look_step(opt[0]) {
            None => Err(opt[0]),
            Some(s) => match look_offset(opt.skip(1)) {
                Ok(p) => Ok((s.0 + p.0, s.1 + p.1)),
                Err(c) => Err(c),
            },
        }
    }
}

/// `acc` added to the offset of `rest`, or the error of `rest`.
pub open spec fn look_combine(acc: (int, int), rest: Result<(int, int), char>) -> Result<(int, int), char> {
    match rest {
        Ok(p) => Ok((acc.0 + p.0, acc.1 + p.1)),
        Err(c) => Err(c),
    }
}

proof fn lemma_look_offset_bounded(opt: Seq<char>)
    ensures
        look_offset(opt) matches Ok(p) ==> -opt.len() <= p.0 <= opt.len() && -opt.len() <= p.1 <= opt.len(),
    decreases opt.len(),
{
    if opt.len() > 0 {
        lemma_look_offset_bounded(opt.skip(1));
    }
}

/// `x`, or 0 when it is negative.
pub open spec fn at_least_zero(x: i32) -> i32 {
    if x < 0 {
        0
    } else {
        x
    }
}

/// `look`: scrolls `view` by the steps of the characters of `opt` (see
/// `look_offset`), keeping its top-left corner at non-negative coordinates.
/// Fails, changing nothing, on the first character that is not a step.
pub fn look(view: &mut crate::state::view::View, opt: &str) -> (r: Result<(), String>)
    requires
        opt@.len() < i32::MAX,
    ensures
        match look_offset(opt@) {
            Ok(p) => r is Ok && final(view).buffer == old(view).buffer && final(view).top_left == Position {
                column: at_least_zero(sat_add_i32(old(view).top_left.column as int, p.0)),
                row: at_least_zero(sat_add_i32(old(view).top_left.row as int, p.1)),
            },
            Err(c) => (r matches Err(e) && e@ == "invalid option: "@ + seq![c]) && *final(view) == *old(view),
        },
{
    let chars = chars_of(opt);
    let mut column: i32 = 0;
    let mut row: i32 = 0;
    let mut i: usize = 0;
    proof {
        assert(chars@.skip(0) =~= opt@);
    }
    while i < chars.len()
        invariant
            chars@ == opt@,
            chars@.len() < i32::MAX,
            i <= chars.len(),
            -(i as int) <= column <= i,
            -(i as int) <= row <= i,
            look_offset(opt@) == look_combine((column as int, row as int), look_offset(chars@.skip(i as int))),
        decreases chars.len() - i,
    {
        let ch = chars[i];
        let ghost rest = chars@.skip(i as int);
        proof {
            assert(rest[0] == ch);
            assert(rest.skip(1) =~= chars@.skip(i + 1));
        }
        if ch == 'u' {
            row = row - 1;
        } else if ch == 'd' {
            row = row + 1;
        } else if ch == 'l' {
            column = column - 1;
        } else if ch == 'r' {
            column = column + 1;
        } else {
            let mut e = to_owned_string("invalid option: ");
            push_char(&mut e, ch);
            proof {
                reveal_strlit("invalid option: ");
            }
            return Err(e);
        }
        i += 1;
    }
    proof {
        assert(chars@.skip(i as int) =~= Seq::<char>::empty());
    }
    let moved = view.top_left.offset(Offset::new(column, row));
    let new_column = if moved.column < 0 {
        0
    } else {
        moved.column
    };
    let new_row = if moved.row < 0 {
        0
    } else {
        moved.row
    };
    view.top_left = Position::new(new_column, new_row);
    Ok(())
}

/// The first index `k`, from `from` on, where `line[k] == ch`.
pub open spec fn first_index_from(line: Seq<char>, ch: char, from: int) -> Option<int>
    decreases line.len() - from,
{
    if from < 0 || from >= line.len() {
        None
    } else if line[from] == ch {
        Some(from)
    } else {
        first_index_from(line, ch, from + 1)
    }
}

proof fn lemma_first_index_from(line: Seq<char>, ch: char, from: int)
    ensures
        first_index_from(line, ch, from) matches Some(k) ==> from <= k < line.len() && line[k] == ch,
    decreases line.len() - from,
{
    if 0 <= from < line.len() && line[from] != ch {
        lemma_first_index_from(line, ch, from + 1);
    }
}

/// Where `ch` is first found searching line `row` from column `from`, then
/// the following lines from their start.
pub open spec fn char_search(lines: Seq<Seq<char>>, ch: char, row: int, from: int) -> Option<Position>
    decreases lines.len() - row,
{
    if row < 0 || row >= lines.len() {
        None
    } else {
        match first_index_from(lines[row], ch, from) {
            Some(c) => Some(Position { column: c as i32, row: row as i32 }),
            None => char_search(lines, ch, row + 1, 0),
        }
    }
}

/// The column where `move-to-char` starts searching on the cursor's line:
/// the one after the cursor; none (past any line) when that is negative.
pub open spec fn search_start_column(cursor_column: i32) -> int {
    if cursor_column + 1 < 0 {
        i32::MAX as int
    } else {
        cursor_column + 1
    }
}

/// The index of the first `ch` in `chars` from `from` on.
fn find_char_from(chars: &Vec<char>, ch: char, from: usize) -> (r: Option<usize>)
    ensures
        match first_index_from(chars@, ch, from as int) {
            Some(k) => r == Some(k as usize),
            None => r is None,
        },
{
    let mut k = from;
    while k < chars.len()
        invariant
            from <= k,
            first_index_from(chars@, ch, from as int) == first_index_from(chars@, ch, k as int),
        decreases chars.len() - k,
    {
        if chars[k] == ch {
            return Some(k);
        }
        k += 1;
    }
    None
}

/// Searches `ch` from column `from` of line `row` on (see `char_search`).
fn search_char(buffer: &TextBuffer, ch: char, row: i32, from: i32) -> (r: Option<Position>)
    requires
        buffer.wf(),
    ensures
        r == char_search(buffer.lines_view(), ch, row as int, if from < 0 { i32::MAX as int } else { from as int }),
{
    let line_count = buffer.line_count();
    let mut row_i = row;
    let mut start_column = from;
    let ghost lines = buffer.lines_view();
    proof {
        crate::state::text_buffer::lemma_lines_bounded(lines);
    }
    while row_i < line_count
        invariant
            buffer.wf(),
            lines == buffer.lines_view(),
            line_count == lines.len(),
            row <= row_i,
            row_i > row ==> start_column == 0,
            forall|r: int| 0 <= r < lines.len() ==> #[trigger] lines[r].len() < i32::MAX,
            char_search(lines, ch, row as int, if from < 0 { i32::MAX as int } else { from as int })
                == char_search(lines, ch, row_i as int, if start_column < 0 { i32::MAX as int } else { start_column as int }),
        decreases line_count - row_i,
    {
        let line = match buffer.line(row_i) {
            Some(l) => l,
            None => {
                return None;
            },
        };
        let chars = chars_of(line);
        proof {
            assert(chars@ == lines[row_i as int]);
        }
        if start_column >= 0 {
            proof {
                lemma_first_index_from(chars@, ch, start_column as int);
            }
            match find_char_from(&chars, ch, start_column as usize) {
                Some(k) => {
                    return Some(Position::new(k as i32, row_i));
                },
                None => {},
            }
        } else {
            proof {
                assert(first_index_from(lines[row_i as int], ch, i32::MAX as int) is None);
            }
        }
        row_i = row_i + 1;
        start_column = 0;
    }
    None
}

/// `move-to-char`: moves the selection onto the next `ch`, the first
/// character of the remainder of `opt` (see `char_search`), or, with the
/// flag `before`, onto the character before it, shrunk to its cursor; keeps
/// the selection when there is no such character. Fails when the remainder
/// is empty.
pub fn move_to_char(opt: &ParsedOptions, buffer: &TextBuffer, selection: Selection) -> (r: Result<
    Option<Selection>,
    String,
>)
    requires
        buffer.wf(),
        selection.cursor.column < i32::MAX,
    ensures
        opt.remainder_spec().len() == 0 ==> (r matches Err(e) && e@ == "missing target char"@),
        opt.remainder_spec().len() > 0 ==> r == Ok::<Option<Selection>, String>(
            Some(
                match char_search(
                    buffer.lines_view(),
                    opt.remainder_spec()[0],
                    selection.cursor.row as int,
                    search_start_column(selection.cursor.column),
                ) {
                    None => selection,
                    Some(pos) => {
                        let c = match buffer.moved_horizontally(
                            pos,
                            if opt.given().contains("before"@) {
                                -1i32
                            } else {
                                0i32
                            },
                        ) {
                            Some(p) => p,
                            None => pos,
                        };
                        Selection { cursor: c, anchor: c }
                    },
                },
            ),
        ),
{
    let before = opt.contains("before");
    let target = chars_of(opt.remainder());
    if target.len() == 0 {
        let e = to_owned_string("missing target char");
        proof {
            reveal_strlit("missing target char");
        }
        return Err(e);
    }
    let ch = target[0];
    let cursor = selection.cursor;
    let found = search_char(buffer, ch, cursor.row, cursor.column + 1);
    let mut selection = selection;
    match found {
        Some(pos) => {
            let offset: i32 = if before {
                -1
            } else {
                0
            };
            let new_cursor = match buffer.move_position_horizontally(pos, offset) {
                Some(p) => p,
                None => pos,
            };
            selection = selection.with_cursor(new_cursor).shrunk_to_cursor();
        },
        None => {},
    }
    Ok(Some(selection))
}

/// A moved selection re-anchored as the movement flags ask: at the original
/// cursor with `reanchored`, else at the original anchor with `anchored`.
pub open spec fn anchored_move(original: Selection, moved: Selection, anchored: bool, reanchored: bool) -> Selection {
    if reanchored {
        Selection { cursor: moved.cursor, anchor: original.cursor }
    } else if anchored {
        Selection { cursor: moved.cursor, anchor: original.anchor }
    } else {
        moved
    }
}

/// The selections that a movement keeps: for each selection that moved, in
/// order, its re-anchored result (see `anchored_move`).
pub open spec fn kept_moves(
    originals: Seq<Selection>,
    moved: Seq<Option<Selection>>,
    anchored: bool,
    reanchored: bool,
) -> Seq<Selection>
    decreases moved.len(),
{
    if moved.len() == 0 {
        Seq::empty()
    } else {
        let before = kept_moves(originals, moved.drop_last(), anchored, reanchored);
        match moved.last() {
            Some(m) => before.push(anchored_move(originals[moved.len() - 1], m, anchored, reanchored)),
            None => before,
        }
    }
}

/// The selections after a movement: those kept (see `kept_moves`), only the
/// first of them with `primary`.
pub open spec fn moved_selections(
    originals: Seq<Selection>,
    moved: Seq<Option<Selection>>,
    anchored: bool,
    reanchored: bool,
    primary: bool,
) -> Seq<Selection> {
    let kept = kept_moves(originals, moved, anchored, reanchored);
    if primary && kept.len() > 1 {
        kept.take(1)
    } else {
        kept
    }
}

/// Ends a movement of the selections of `view`: `moved[i]` is where
/// selection `i` of `originals` went, `None` for one that is dropped. Keeps
/// the moved ones (see `moved_selections`), emits `selections-modified`, and
/// sets them as the selections of `view`; fails, leaving the buffer as it
/// is, when none is left.
pub fn finish_selection_movement(
    buffer: &mut TextBuffer,
    view: u64,
    queue: &mut CommandQueue,
    originals: &crate::selection::Selections,
    moved: Vec<Option<Selection>>,
    anchored: bool,
    reanchored: bool,
    primary: bool,
) -> (r: Result<(), String>)
    requires
        old(buffer).wf(),
        old(queue).wf(),
        old(queue).scopes().last() < u32::MAX,
        moved@.len() == originals.all_spec().len(),
    ensures
        ({
            let sels = moved_selections(originals.all_spec(), moved@, anchored, reanchored, primary);
            let k = old(queue).scopes().last() as int;
            &&& final(queue).wf()
            &&& final(queue).commands() == old(queue).commands().insert(k, "selections-modified"@ + seq![' '])
            &&& final(queue).scopes() == old(queue).scopes().update(
                old(queue).scopes().len() - 1,
                (old(queue).scopes().last() + 1) as u32,
            )
            &&& (sels.len() == 0 ==> (r matches Err(e) && e@ == "no selection left!"@) && *final(buffer)
                == *old(buffer))
            &&& (sels.len() > 0 ==> r is Ok && final(buffer).wf() && final(buffer).selections.view_spec()
                == old(buffer).selections.view_spec().insert(view, sels) && final(buffer).lines == old(buffer).lines
                && final(buffer).path == old(buffer).path && final(buffer).history == old(buffer).history
                && final(buffer).dirty == old(buffer).dirty && final(buffer).content_version == old(
                buffer,
            ).content_version)
        }),
{
    let ghost origs = originals.all_spec();
    let all = originals.all();
    let mut kept: Vec<Selection> = Vec::new();
    let mut i: usize = 0;
    while i < moved.len()
        invariant
            i <= moved.len(),
            all@ == origs,
            moved@.len() == origs.len(),
            kept@ == kept_moves(origs, moved@.take(i as int), anchored, reanchored),
        decreases moved.len() - i,
    {
        proof {
            assert(moved@.take(i + 1).drop_last() =~= moved@.take(i as int));
        }
        match moved[i] {
            Some(m) => {
                let original = all[i];
                let sel = if reanchored {
                    m.with_anchor(original.cursor)
                } else if anchored {
                    m.with_anchor(original.anchor)
                } else {
                    m
                };
                kept.push(sel);
            },
            None => {},
        }
        i += 1;
    }
    proof {
        assert(moved@.take(i as int) =~= moved@);
    }
    if primary && kept.len() > 1 {
        kept.truncate(1);
        proof {
            assert(kept@ =~= kept_moves(origs, moved@, anchored, reanchored).take(1));
        }
    }
    let ghost sels = kept@;
    proof {
        lemma_queue_has_scope(*queue);
    }
    queue.emit(to_owned_string("selections-modified"), "");
    proof {
        reveal_strlit("");
        assert("selections-modified"@ + seq![' '] + ""@ =~= "selections-modified"@ + seq![' ']);
    }
    if kept.len() == 0 {
        let e = to_owned_string("no selection left!");
        proof {
            reveal_strlit("no selection left!");
        }
        return Err(e);
    }
    let primary_selection = kept.remove(0);
    let new_sels = crate::selection::Selections { primary_selection, extra_selections: kept };
    proof {
        assert(new_sels.all_spec() =~= sels);
    }
    buffer.set_view_selections(view, new_sels);
    Ok(())
}

/// A deletion that is defined does not lengthen the text.
proof fn lemma_delete_shrinks(lines: Seq<Seq<char>>, range: Range)
    requires
        lines.len() >= 1,
        can_delete_in(lines, range),
        ({
            let d = deleted_span_in(lines, range);
            d.start != d.end ==> 0 <= d.end.row < lines.len() && 0 <= d.end.column <= lines[d.end.row as int].len()
                && 0 <= d.start.row <= d.end.row && 0 <= d.start.column && (d.start.row == d.end.row
                ==> d.start.column <= d.end.column)
        }),
    ensures
        lines_after_edit(lines, range, Seq::<char>::empty()).len() >= 1,
        join_lines(lines_after_edit(lines, range, Seq::<char>::empty())).len() <= join_lines(lines).len(),
{
    let d = deleted_span_in(lines, range);
    if !(range.start == range.end || d.start == d.end) {
        lemma_delete_lines(lines, d.start.row as int, d.start.column as int, d.end.row as int, d.end.column as int);
    }
}

/// The first half of a step of `replace` on selection `idx` of `view`: the
/// selection shrinks to its cursor, then `ch` is inserted just after its end.
pub open spec fn replace_insert_step(
    st: (Seq<Seq<char>>, Map<u64, Seq<Selection>>),
    view: u64,
    ch: char,
    idx: int,
) -> (Seq<Seq<char>>, Map<u64, Seq<Selection>>) {
    let sel = st.1[view][idx];
    let after = sel.end_spec().offset_spec(Offset { column: 1, row: 0 });
    let m1 = st.1.insert(view, st.1[view].update(idx, Selection { cursor: sel.cursor, anchor: sel.cursor }));
    let range = Range { start: after, end: after };
    (lines_after_edit(st.0, range, seq![ch]), views_after_edit(m1, st.0, range, seq![ch]))
}

/// The lines and the selections of every view after `replace` replaced the
/// last `k` selections of `view` by `ch`, from the last one back: each
/// selection, taken where the steps before it moved it, shrinks to its
/// cursor, `ch` is inserted after its end, then its characters are deleted.
pub open spec fn replaced_from_last(
    lines: Seq<Seq<char>>,
    all: Map<u64, Seq<Selection>>,
    view: u64,
    ch: char,
    k: nat,
) -> (Seq<Seq<char>>, Map<u64, Seq<Selection>>)
    decreases k,
{
    if k == 0 {
        (lines, all)
    } else {
        let prev = replaced_from_last(lines, all, view, ch, (k - 1) as nat);
        let idx = all[view].len() - k;
        let sel = prev.1[view][idx];
        let mid = replace_insert_step(prev, view, ch, idx);
        let range = sel.to_range_spec();
        (
            lines_after_edit(mid.0, range, Seq::<char>::empty()),
            views_after_edit(mid.1, mid.0, range, Seq::<char>::empty()),
        )
    }
}

/// The content version, from `v`, after `replace` replaced the last `k`
/// selections of `view` (see `replaced_from_last`): each insertion moves it
/// on, and each deletion that removes characters.
pub open spec fn replaced_version(
    lines: Seq<Seq<char>>,
    all: Map<u64, Seq<Selection>>,
    view: u64,
    ch: char,
    v: i32,
    k: nat,
) -> i32
    decreases k,
{
    if k == 0 {
        v
    } else {
        let prev = replaced_from_last(lines, all, view, ch, (k - 1) as nat);
        let idx = all[view].len() - k;
        let mid = replace_insert_step(prev, view, ch, idx);
        version_after_edit(
            next_version(replaced_version(lines, all, view, ch, v, (k - 1) as nat)),
            mid.0,
            prev.1[view][idx].to_range_spec(),
            Seq::<char>::empty(),
        )
    }
}

/// Whether the deletion of step `j` of `replace` (counted from 0, from the
/// last selection back) is defined.
pub open spec fn replace_step_allowed(
    lines: Seq<Seq<char>>,
    all: Map<u64, Seq<Selection>>,
    view: u64,
    ch: char,
    j: nat,
) -> bool {
    let prev = replaced_from_last(lines, all, view, ch, j);
    let idx = all[view].len() - 1 - j;
    edit_allowed(
        replace_insert_step(prev, view, ch, idx).0,
        prev.1[view][idx].to_range_spec(),
        Seq::<char>::empty(),
    )
}

/// One step of `replace` on selection `idx` of `view` (see
/// `replace_insert_step`), its deletion done only when it is defined, which
/// the result tells.
fn replace_step(buffer: &mut TextBuffer, view: u64, ch: char, idx: usize) -> (r: bool)
    requires
        old(buffer).wf(),
        old(buffer).selections.view_spec().contains_key(view),
        idx < old(buffer).selections.view_spec()[view].len(),
        old(buffer).content().len() + 1 < i32::MAX,
    ensures
        final(buffer).wf(),
        final(buffer).path == old(buffer).path,
        ({
            let st = (old(buffer).lines_view(), old(buffer).selections.view_spec());
            let mid = replace_insert_step(st, view, ch, idx as int);
            let range = st.1[view][idx as int].to_range_spec();
            &&& r == edit_allowed(mid.0, range, Seq::<char>::empty())
            &&& r ==> final(buffer).lines_view() == lines_after_edit(mid.0, range, Seq::<char>::empty())
                && final(buffer).selections.view_spec() == views_after_edit(
                mid.1,
                mid.0,
                range,
                Seq::<char>::empty(),
            )
            &&& !r ==> final(buffer).lines_view() == mid.0 && final(buffer).selections.view_spec() == mid.1
            &&& final(buffer).dirty
            &&& r ==> final(buffer).content_version == version_after_edit(
                next_version(old(buffer).content_version),
                mid.0,
                range,
                Seq::<char>::empty(),
            )
            &&& !r ==> final(buffer).content_version == next_version(old(buffer).content_version)
        }),
        final(buffer).selections.view_spec().contains_key(view),
        final(buffer).selections.view_spec()[view].len() == old(buffer).selections.view_spec()[view].len(),
        final(buffer).content().len() <= old(buffer).content().len() + 1,
{
    let ghost prev = (buffer.lines_view(), buffer.selections.view_spec());
    let mut selections = match buffer.view_selections(view) {
        Some(sels) => sels.clone(),
        None => crate::selection::Selections::new(),
    };
    let sel = match selections.get(idx) {
        Some(s) => s,
        None => Selection::new(),
    };
    let after = sel.end().offset(Offset::new(1, 0));
    selections.set(idx, sel.shrunk_to_cursor());
    buffer.set_view_selections(view, selections);
    let ghost lines1 = buffer.lines_view();
    let ghost m1 = buffer.selections.view_spec();
    proof {
        lemma_insert_grows(lines1, after, seq![ch]);
        assert(m1 == prev.1.insert(
            view,
            prev.1[view].update(idx as int, Selection { cursor: sel.cursor, anchor: sel.cursor }),
        ));
    }
    let _ = buffer.insert_char_at(ch, after);
    proof {
        let range = Range { start: after, end: after };
        assert(buffer.selections.view_spec() =~= views_after_edit(m1, lines1, range, seq![ch]));
    }
    let range = sel.to_range();
    let ghost lines2 = buffer.lines_view();
    let ghost m2 = buffer.selections.view_spec();
    if !(range.start == range.end || buffer.can_delete_range(range)) {
        return false;
    }
    proof {
        if range.start != range.end {
            lemma_delete_shrinks(lines2, range);
        }
    }
    let _ = buffer.delete_selection(&sel);
    proof {
        assert(buffer.selections.view_spec() =~= views_after_edit(m2, lines2, range, Seq::<char>::empty()));
    }
    true
}

/// `replace`: replaces the characters of each selection of `view` by the
/// first character of `opt`, from the last selection back (see
/// `replaced_from_last`), then emits `buffer-modified` and
/// `selections-modified`. Fails, changing nothing, when `opt` is empty; stops
/// with an error at the first selection that lies past the end of a line.
#[verifier::rlimit(40)]
pub fn replace(opt: &str, buffer: &mut TextBuffer, view: u64, queue: &mut CommandQueue) -> (r: Result<
    (),
    String,
>)
    requires
        old(buffer).wf(),
        old(buffer).selections.view_spec().contains_key(view),
        old(buffer).content().len() + old(buffer).selections.view_spec()[view].len() < i32::MAX,
        old(queue).wf(),
        old(queue).scopes().last() + 2 <= u32::MAX,
    ensures
        final(buffer).wf(),
        final(buffer).path == old(buffer).path,
        opt@.len() == 0 ==> (r matches Err(e) && e@ == "missing replacement char"@) && *final(buffer) == *old(
            buffer,
        ) && *final(queue) == *old(queue),
        opt@.len() > 0 ==> ({
            let l0 = old(buffer).lines_view();
            let m0 = old(buffer).selections.view_spec();
            let n = m0[view].len();
            let ch = opt@[0];
            &&& (r is Ok <==> forall|j: nat| j < n ==> replace_step_allowed(l0, m0, view, ch, j))
            &&& final(buffer).dirty
            &&& r is Ok ==> final(buffer).content_version == replaced_version(
                l0,
                m0,
                view,
                ch,
                old(buffer).content_version,
                n,
            )
            &&& r matches Err(_) ==> exists|j: nat|
                j < n && !replace_step_allowed(l0, m0, view, ch, j) && (forall|i: nat|
                    i < j ==> replace_step_allowed(l0, m0, view, ch, i)) && final(buffer).content_version
                    == next_version(replaced_version(l0, m0, view, ch, old(buffer).content_version, j))
            &&& r is Ok ==> final(buffer).lines_view() == replaced_from_last(l0, m0, view, ch, n).0
                && final(buffer).selections.view_spec() == replaced_from_last(l0, m0, view, ch, n).1
                && edit_events_queued(*old(queue), *final(queue), path_text(*old(buffer)))
            &&& r matches Err(e) ==> e@ == "selection lies outside of the buffer's content"@ && *final(queue)
                == *old(queue) && exists|j: nat|
                j < n && !replace_step_allowed(l0, m0, view, ch, j) && (forall|i: nat|
                    i < j ==> replace_step_allowed(l0, m0, view, ch, i)) && final(buffer).lines_view()
                    == replace_insert_step(
                    replaced_from_last(l0, m0, view, ch, j),
                    view,
                    ch,
                    n - 1 - j,
                ).0 && final(buffer).selections.view_spec() == replace_insert_step(
                    replaced_from_last(l0, m0, view, ch, j),
                    view,
                    ch,
                    n - 1 - j,
                ).1
        }),
{
    let chars = chars_of(opt);
    if chars.len() == 0 {
        let e = to_owned_string("missing replacement char");
        proof {
            reveal_strlit("missing replacement char");
        }
        return Err(e);
    }
    let ch = chars[0];
    let ghost l0 = buffer.lines_view();
    let ghost m0 = buffer.selections.view_spec();
    let ghost n = m0[view].len();
    let ghost c0 = buffer.content().len();
    let sel_count = match buffer.view_selections(view) {
        Some(sels) => sels.count(),
        None => 0,
    };
    let mut k: usize = 0;
    while k < sel_count
        invariant
            k <= sel_count,
            sel_count == n,
            n == m0[view].len(),
            l0 == old(buffer).lines_view(),
            m0 == old(buffer).selections.view_spec(),
            opt@.len() > 0,
            ch == opt@[0],
            buffer.wf(),
            buffer.path == old(buffer).path,
            buffer.lines_view() == replaced_from_last(l0, m0, view, ch, k as nat).0,
            buffer.selections.view_spec() == replaced_from_last(l0, m0, view, ch, k as nat).1,
            buffer.selections.view_spec().contains_key(view),
            buffer.selections.view_spec()[view].len() == n,
            buffer.content().len() <= c0 + k,
            c0 + n < i32::MAX,
            forall|i: nat| i < k ==> replace_step_allowed(l0, m0, view, ch, i),
            buffer.content_version == replaced_version(l0, m0, view, ch, old(buffer).content_version, k as nat),
            k > 0 ==> buffer.dirty,
            k == 0 ==> buffer.dirty == old(buffer).dirty,
            *queue == *old(queue),
        decreases sel_count - k,
    {
        let idx = sel_count - 1 - k;
        let ghost prev = (buffer.lines_view(), buffer.selections.view_spec());
        let deleted = replace_step(buffer, view, ch, idx);
        if !deleted {
            let e = to_owned_string("selection lies outside of the buffer's content");
            proof {
                reveal_strlit("selection lies outside of the buffer's content");
                let j = k as nat;
                assert(!replace_step_allowed(l0, m0, view, ch, j));
                assert(j < n && !replace_step_allowed(l0, m0, view, ch, j) && (forall|i: nat|
                    i < j ==> replace_step_allowed(l0, m0, view, ch, i)) && buffer.lines_view()
                    == replace_insert_step(replaced_from_last(l0, m0, view, ch, j), view, ch, n - 1 - j).0
                    && buffer.selections.view_spec() == replace_insert_step(
                    replaced_from_last(l0, m0, view, ch, j),
                    view,
                    ch,
                    n - 1 - j,
                ).1);
            }
            return Err(e);
        }
        proof {
            assert(replace_step_allowed(l0, m0, view, ch, k as nat));
        }
        k += 1;
    }
    emit_edit_events(queue, buffer.path_str());
    Ok(())
}

/// The range of the single character at `at`.
pub open spec fn char_range(at: Position) -> Range {
    Range { start: at, end: at.offset_spec(Offset { column: 1, row: 0 }) }
}

/// Deleting the character at a position limited to the content is defined.
proof fn lemma_limited_deletable(lines: Seq<Seq<char>>, q: Position)
    requires
        lines.len() >= 1,
        join_lines(lines).len() < i32::MAX,
    ensures
        edit_allowed(lines, char_range(limit_position_in(lines, q)), Seq::<char>::empty()),
{
    crate::state::text_buffer::lemma_lines_bounded(lines);
    let p = limit_position_in(lines, q);
    assert(0 <= p.row < lines.len());
    assert(lines[p.row as int].len() < i32::MAX);
    let range = char_range(p);
    assert(range.end == Position { column: (p.column + 1) as i32, row: p.row });
    assert(crate::state::edit_model::limit_range_edge_in(lines, range.start) == range.start);
    assert(crate::state::edit_model::limit_range_edge_in(lines, range.end) == range.end);
    assert(can_delete_in(lines, range));
}

/// The lines and the selections of every view after deleting the
/// character at `at`.
pub open spec fn deleted_char(st: (Seq<Seq<char>>, Map<u64, Seq<Selection>>), at: Position) -> (
    Seq<Seq<char>>,
    Map<u64, Seq<Selection>>,
) {
    (
        lines_after_edit(st.0, char_range(at), Seq::<char>::empty()),
        views_after_edit(st.1, st.0, char_range(at), Seq::<char>::empty()),
    )
}

/// The part of a step of `delete-around` before the selection: deletes the
/// character before its start, when there is one.
pub open spec fn deleted_before(st: (Seq<Seq<char>>, Map<u64, Seq<Selection>>), sel: Selection) -> (
    Seq<Seq<char>>,
    Map<u64, Seq<Selection>>,
) {
    match moved_horizontally_in(st.0, sel.start_spec(), -1i32) {
        None => st,
        Some(at) => deleted_char(st, at),
    }
}

/// A step of `delete-around` on selection `sel`: with `after`, deletes the
/// character after its end, and stops there when there is none; then, with
/// `before`, deletes the character before its start (see `deleted_before`).
pub open spec fn delete_around_step(
    st: (Seq<Seq<char>>, Map<u64, Seq<Selection>>),
    sel: Selection,
    before: bool,
    after: bool,
) -> (Seq<Seq<char>>, Map<u64, Seq<Selection>>) {
    if after {
        match moved_horizontally_in(st.0, sel.end_spec(), 1i32) {
            None => st,
            Some(at) => {
                let st1 = deleted_char(st, at);
                if before {
                    deleted_before(st1, sel)
                } else {
                    st1
                }
            },
        }
    } else if before {
        deleted_before(st, sel)
    } else {
        st
    }
}

/// The content version and the dirty flag after deleting the character at
/// `at` from `lines` (see `deleted_char`).
pub open spec fn deleted_char_version(vd: (i32, bool), lines: Seq<Seq<char>>, at: Position) -> (i32, bool) {
    (
        version_after_edit(vd.0, lines, char_range(at), Seq::<char>::empty()),
        vd.1 || edit_changes(lines, char_range(at), Seq::<char>::empty()),
    )
}

/// The content version and the dirty flag after a step of `delete-around`
/// (see `delete_around_step`), from `vd`.
pub open spec fn delete_around_step_version(
    st: (Seq<Seq<char>>, Map<u64, Seq<Selection>>),
    vd: (i32, bool),
    sel: Selection,
    before: bool,
    after: bool,
) -> (i32, bool) {
    let before_version = |st1: (Seq<Seq<char>>, Map<u64, Seq<Selection>>), vd1: (i32, bool)|
        match moved_horizontally_in(st1.0, sel.start_spec(), -1i32) {
            None => vd1,
            Some(at) => deleted_char_version(vd1, st1.0, at),
        };
    if after {
        match moved_horizontally_in(st.0, sel.end_spec(), 1i32) {
            None => vd,
            Some(at) => {
                let vd1 = deleted_char_version(vd, st.0, at);
                if before {
                    before_version(deleted_char(st, at), vd1)
                } else {
                    vd1
                }
            },
        }
    } else if before {
        before_version(st, vd)
    } else {
        vd
    }
}

/// The content version and the dirty flag, from `vd`, after `delete-around`
/// worked around the last `k` selections of `sels`.
pub open spec fn deleted_around_version(
    lines: Seq<Seq<char>>,
    all: Map<u64, Seq<Selection>>,
    sels: Seq<Selection>,
    cursor_only: bool,
    before: bool,
    after: bool,
    vd: (i32, bool),
    k: nat,
) -> (i32, bool)
    decreases k,
{
    if k == 0 {
        vd
    } else {
        delete_around_step_version(
            deleted_around_from_last(lines, all, sels, cursor_only, before, after, (k - 1) as nat),
            deleted_around_version(lines, all, sels, cursor_only, before, after, vd, (k - 1) as nat),
            around_selection(sels[sels.len() - k], cursor_only),
            before,
            after,
        )
    }
}

/// The selection that `delete-around` works around: shrunk to its cursor
/// with `cursor_only`.
pub open spec fn around_selection(sel: Selection, cursor_only: bool) -> Selection {
    if cursor_only {
        Selection { cursor: sel.cursor, anchor: sel.cursor }
    } else {
        sel
    }
}

/// The lines and the selections of every view after `delete-around` worked
/// around the last `k` selections of `sels`, from the last one back.
pub open spec fn deleted_around_from_last(
    lines: Seq<Seq<char>>,
    all: Map<u64, Seq<Selection>>,
    sels: Seq<Selection>,
    cursor_only: bool,
    before: bool,
    after: bool,
    k: nat,
) -> (Seq<Seq<char>>, Map<u64, Seq<Selection>>)
    decreases k,
{
    if k == 0 {
        (lines, all)
    } else {
        let prev = deleted_around_from_last(lines, all, sels, cursor_only, before, after, (k - 1) as nat);
        delete_around_step(prev, around_selection(sels[sels.len() - k], cursor_only), before, after)
    }
}

/// Deletes the character at `at`, a position limited to the content.
fn delete_char_at(buffer: &mut TextBuffer, at: Position, q: Ghost<Position>)
    requires
        old(buffer).wf(),
        at == limit_position_in(old(buffer).lines_view(), q@),
    ensures
        final(buffer).wf(),
        final(buffer).path == old(buffer).path,
        final(buffer).lines_view() == deleted_char(
            (old(buffer).lines_view(), old(buffer).selections.view_spec()),
            at,
        ).0,
        final(buffer).selections.view_spec() == deleted_char(
            (old(buffer).lines_view(), old(buffer).selections.view_spec()),
            at,
        ).1,
        (final(buffer).content_version, final(buffer).dirty) == deleted_char_version(
            (old(buffer).content_version, old(buffer).dirty),
            old(buffer).lines_view(),
            at,
        ),
{
    let ghost lines = buffer.lines_view();
    let ghost m = buffer.selections.view_spec();
    proof {
        lemma_limited_deletable(lines, q@);
    }
    let _ = buffer.delete_at(at);
    proof {
        assert(buffer.selections.view_spec() =~= views_after_edit(m, lines, char_range(at), Seq::<char>::empty()));
    }
}

/// One step of `delete-around` (see `delete_around_step`).
fn delete_around_one(buffer: &mut TextBuffer, sel: Selection, before: bool, after: bool)
    requires
        old(buffer).wf(),
    ensures
        final(buffer).wf(),
        final(buffer).path == old(buffer).path,
        final(buffer).lines_view() == delete_around_step(
            (old(buffer).lines_view(), old(buffer).selections.view_spec()),
            sel,
            before,
            after,
        ).0,
        final(buffer).selections.view_spec() == delete_around_step(
            (old(buffer).lines_view(), old(buffer).selections.view_spec()),
            sel,
            before,
            after,
        ).1,
        (final(buffer).content_version, final(buffer).dirty) == delete_around_step_version(
            (old(buffer).lines_view(), old(buffer).selections.view_spec()),
            (old(buffer).content_version, old(buffer).dirty),
            sel,
            before,
            after,
        ),
{
    if after {
        let from = sel.end();
        match buffer.move_position_horizontally(from, 1) {
            None => {
                return;
            },
            Some(at) => {
                let ghost q = choose|q: Position| at == limit_position_in(buffer.lines_view(), q);
                proof {
                    lemma_moved_is_limited(buffer.lines_view(), from, 1i32);
                }
                delete_char_at(buffer, at, Ghost(q));
            },
        }
    }
    if before {
        let from = sel.start();
        match buffer.move_position_horizontally(from, -1) {
            None => {},
            Some(at) => {
                let ghost q = choose|q: Position| at == limit_position_in(buffer.lines_view(), q);
                proof {
                    lemma_moved_is_limited(buffer.lines_view(), from, -1i32);
                }
                delete_char_at(buffer, at, Ghost(q));
            },
        }
    }
}

/// Where a horizontal move leads is a position limited to the content.
proof fn lemma_moved_is_limited(lines: Seq<Seq<char>>, from: Position, direction: i32)
    ensures
        moved_horizontally_in(lines, from, direction) matches Some(p) ==> exists|q: Position|
            p == limit_position_in(lines, q),
{
    let d = crate::position::signum_spec(direction);
    let target = from.column + d;
    if target < 0 {
        if from.row != 0 {
            let prev = sat_add_i32(from.row as int, -1);
            let column = if 0 <= prev < lines.len() { lines[prev as int].len() as int } else { 0 };
            let q = Position { column: column as i32, row: prev };
            assert(moved_horizontally_in(lines, from, direction) == Some(limit_position_in(lines, q)));
        }
    } else if 0 <= from.row < lines.len() && target > lines[from.row as int].len() {
        if from.row != lines.len() - 1 {
            let q = Position { column: 0, row: sat_add_i32(from.row as int, 1) };
            assert(moved_horizontally_in(lines, from, direction) == Some(limit_position_in(lines, q)));
        }
    } else {
        let q = from.offset_spec(Offset { column: d, row: 0 });
        assert(moved_horizontally_in(lines, from, direction) == Some(limit_position_in(lines, q)));
    }
}

/// `delete-around`: deletes the characters around each selection of `view`,
/// from the last selection back, the selections taken as they were before
/// the first deletion (see `delete_around_step`): with the flag `c` around
/// its cursor only; the character before it with `p`, the one after it with
/// `n`, both when neither is given. Then emits `buffer-modified` and
/// `selections-modified`.
#[verifier::rlimit(40)]
pub fn delete_around(opt: &ParsedOptions, buffer: &mut TextBuffer, view: u64, queue: &mut CommandQueue) -> (r: Result<
    (),
    String,
>)
    requires
        old(buffer).wf(),
        old(buffer).selections.view_spec().contains_key(view),
        old(queue).wf(),
        old(queue).scopes().last() + 2 <= u32::MAX,
    ensures
        ({
            let cursor_only = opt.given().contains("c"@);
            let p = opt.given().contains("p"@);
            let n = opt.given().contains("n"@);
            let before = if !n && !p { true } else { p };
            let after = if !n && !p { true } else { n };
            let l0 = old(buffer).lines_view();
            let m0 = old(buffer).selections.view_spec();
            let res = deleted_around_from_last(l0, m0, m0[view], cursor_only, before, after, m0[view].len());
            &&& (final(buffer).content_version, final(buffer).dirty) == deleted_around_version(
                l0,
                m0,
                m0[view],
                cursor_only,
                before,
                after,
                (old(buffer).content_version, old(buffer).dirty),
                m0[view].len(),
            )
            &&& r is Ok
            &&& final(buffer).wf()
            &&& final(buffer).path == old(buffer).path
            &&& final(buffer).lines_view() == res.0
            &&& final(buffer).selections.view_spec() == res.1
            &&& edit_events_queued(*old(queue), *final(queue), path_text(*old(buffer)))
        }),
{
    let contains_cursor = opt.contains("c");
    let contains_previous = opt.contains("p");
    let contains_next = opt.contains("n");
    let (delete_before, delete_after) = if !contains_next && !contains_previous {
        (true, true)
    } else {
        (contains_previous, contains_next)
    };
    let ghost l0 = buffer.lines_view();
    let ghost m0 = buffer.selections.view_spec();
    let ghost s0 = m0[view];
    let snapshot = match buffer.view_selections(view) {
        Some(sels) => sels.clone(),
        None => crate::selection::Selections::new(),
    };
    let sel_count = snapshot.count();
    let mut k: usize = 0;
    while k < sel_count
        invariant
            k <= sel_count,
            sel_count == s0.len(),
            snapshot.all_spec() == s0,
            s0 == m0[view],
            l0 == old(buffer).lines_view(),
            m0 == old(buffer).selections.view_spec(),
            buffer.wf(),
            buffer.path == old(buffer).path,
            buffer.lines_view() == deleted_around_from_last(
                l0,
                m0,
                s0,
                contains_cursor,
                delete_before,
                delete_after,
                k as nat,
            ).0,
            buffer.selections.view_spec() == deleted_around_from_last(
                l0,
                m0,
                s0,
                contains_cursor,
                delete_before,
                delete_after,
                k as nat,
            ).1,
            (buffer.content_version, buffer.dirty) == deleted_around_version(
                l0,
                m0,
                s0,
                contains_cursor,
                delete_before,
                delete_after,
                (old(buffer).content_version, old(buffer).dirty),
                k as nat,
            ),
            *queue == *old(queue),
        decreases sel_count - k,
    {
        let mut sel = match snapshot.get(sel_count - 1 - k) {
            Some(s) => s,
            None => Selection::new(),
        };
        if contains_cursor {
            sel = sel.shrunk_to_cursor();
        }
        delete_around_one(buffer, sel, delete_before, delete_after);
        k += 1;
    }
    emit_edit_events(queue, buffer.path_str());
    Ok(())
}

/// The queue after `selections-modified ` was queued in the current scope.
pub open spec fn selection_event_queued(before: CommandQueue, after: CommandQueue) -> bool {
    &&& after.wf()
    &&& after.commands() == before.commands().insert(
        before.scopes().last() as int,
        "selections-modified"@ + seq![' '],
    )
    &&& after.scopes() == before.scopes().update(before.scopes().len() - 1, (before.scopes().last() + 1) as u32)
    &&& after.log() == before.log()
}

/// Emits `selections-modified`.
fn emit_selection_event(queue: &mut CommandQueue)
    requires
        old(queue).wf(),
        old(queue).scopes().last() < u32::MAX,
    ensures
        selection_event_queued(*old(queue), *final(queue)),
{
    proof {
        lemma_queue_has_scope(*queue);
    }
    queue.emit(to_owned_string("selections-modified"), "");
    proof {
        reveal_strlit("");
        assert("selections-modified"@ + seq![' '] + ""@ =~= "selections-modified"@ + seq![' ']);
    }
}

/// How `selections-flip` turns a selection: made forward with `forward`,
/// made backward with `backward`, otherwise flipped.
pub open spec fn flip_spec(sel: Selection, forward: bool, backward: bool) -> Selection {
    let fwd = if sel.is_forward_spec() {
        sel
    } else {
        Selection { cursor: sel.anchor, anchor: sel.cursor }
    };
    if forward {
        fwd
    } else if backward {
        Selection { cursor: fwd.anchor, anchor: fwd.cursor }
    } else {
        Selection { cursor: sel.anchor, anchor: sel.cursor }
    }
}

/// The selections of `view` once the buffer is told they changed.
pub open spec fn selections_set(before: TextBuffer, after: TextBuffer, view: u64, sels: Seq<Selection>) -> bool {
    &&& after.wf()
    &&& after.selections.view_spec() == before.selections.view_spec().insert(view, sels)
    &&& after.lines == before.lines
    &&& after.path == before.path
    &&& after.history == before.history
    &&& after.dirty == before.dirty
    &&& after.content_version == before.content_version
}

/// `selections-shrink`: shrinks each selection of `view` to its cursor, then
/// emits `selections-modified`.
pub fn selections_shrink(buffer: &mut TextBuffer, view: u64, queue: &mut CommandQueue)
    requires
        old(buffer).wf(),
        old(buffer).selections.view_spec().contains_key(view),
        old(queue).wf(),
        old(queue).scopes().last() < u32::MAX,
    ensures
        selections_set(
            *old(buffer),
            *final(buffer),
            view,
            old(buffer).selections.view_spec()[view].map_values(
                |s: Selection| Selection { cursor: s.cursor, anchor: s.cursor },
            ),
        ),
        selection_event_queued(*old(queue), *final(queue)),
{
    let mut selections = match buffer.view_selections(view) {
        Some(sels) => sels.clone(),
        None => crate::selection::Selections::new(),
    };
    let ghost s0 = selections.all_spec();
    let n = selections.count();
    let mut i: usize = 0;
    while i < n
        invariant
            i <= n,
            n == s0.len(),
            selections.all_spec().len() == n,
            forall|j: int| 0 <= j < i ==> selections.all_spec()[j] == (Selection {
                cursor: s0[j].cursor,
                anchor: s0[j].cursor,
            }),
            forall|j: int| i <= j < n ==> selections.all_spec()[j] == s0[j],
        decreases n - i,
    {
        let sel = match selections.get(i) {
            Some(s) => s,
            None => Selection::new(),
        };
        selections.set(i, sel.shrunk_to_cursor());
        i += 1;
    }
    proof {
        assert(selections.all_spec() =~= s0.map_values(|s: Selection| Selection { cursor: s.cursor, anchor: s.cursor }));
    }
    buffer.set_view_selections(view, selections);
    emit_selection_event(queue);
}

/// `selections-flip`: turns each selection of `view` (see `flip_spec`), then
/// emits `selections-modified` when any of them changed.
pub fn selections_flip(opt: &ParsedOptions, buffer: &mut TextBuffer, view: u64, queue: &mut CommandQueue)
    requires
        old(buffer).wf(),
        old(buffer).selections.view_spec().contains_key(view),
        old(queue).wf(),
        old(queue).scopes().last() < u32::MAX,
    ensures
        ({
            let s0 = old(buffer).selections.view_spec()[view];
            let flipped = s0.map_values(
                |s: Selection| flip_spec(s, opt.given().contains("forward"@), opt.given().contains("backward"@)),
            );
            &&& selections_set(*old(buffer), *final(buffer), view, flipped)
            &&& flipped != s0 ==> selection_event_queued(*old(queue), *final(queue))
            &&& flipped == s0 ==> *final(queue) == *old(queue)
        }),
{
    let forward = opt.contains("forward");
    let backward = opt.contains("backward");
    let mut selections = match buffer.view_selections(view) {
        Some(sels) => sels.clone(),
        None => crate::selection::Selections::new(),
    };
    let ghost s0 = selections.all_spec();
    let n = selections.count();
    let mut anything_changed = false;
    let mut i: usize = 0;
    while i < n
        invariant
            i <= n,
            n == s0.len(),
            selections.all_spec().len() == n,
            forall|j: int| 0 <= j < i ==> selections.all_spec()[j] == flip_spec(#[trigger] s0[j], forward, backward),
            forall|j: int| i <= j < n ==> selections.all_spec()[j] == s0[j],
            anything_changed <==> exists|j: int| 0 <= j < i && flip_spec(#[trigger] s0[j], forward, backward) != s0[j],
        decreases n - i,
    {
        let sel = match selections.get(i) {
            Some(s) => s,
            None => Selection::new(),
        };
        let flipped_sel = if forward {
            sel.flipped_forward()
        } else if backward {
            sel.flipped_forward().flipped()
        } else {
            sel.flipped()
        };
        proof {
            assert(sel == s0[i as int]);
            assert(flipped_sel == flip_spec(s0[i as int], forward, backward));
        }
        if sel != flipped_sel {
            anything_changed = true;
        }
        selections.set(i, flipped_sel);
        proof {
            if sel != flipped_sel {
                assert(flip_spec(s0[i as int], forward, backward) != s0[i as int]);
            } else {
                assert(flip_spec(s0[i as int], forward, backward) == s0[i as int]);
            }
        }
        i += 1;
    }
    let ghost flipped = s0.map_values(|s: Selection| flip_spec(s, forward, backward));
    proof {
        assert(selections.all_spec() =~= flipped);
        if anything_changed {
            let j = choose|j: int| 0 <= j < n && flip_spec(#[trigger] s0[j], forward, backward) != s0[j];
            assert(flipped[j] != s0[j]);
        } else {
            assert(flipped =~= s0);
        }
    }
    buffer.set_view_selections(view, selections);
    if anything_changed {
        emit_selection_event(queue);
    }
}

/// `selections-dismiss-extras`: keeps only the primary selection of `view`,
/// then emits `selections-modified`.
pub fn selections_dismiss_extras(buffer: &mut TextBuffer, view: u64, queue: &mut CommandQueue)
    requires
        old(buffer).wf(),
        old(buffer).selections.view_spec().contains_key(view),
        old(queue).wf(),
        old(queue).scopes().last() < u32::MAX,
    ensures
        selections_set(*old(buffer), *final(buffer), view, seq![old(buffer).selections.view_spec()[view][0]]),
        selection_event_queued(*old(queue), *final(queue)),
{
    let mut selections = match buffer.view_selections(view) {
        Some(sels) => sels.clone(),
        None => crate::selection::Selections::new(),
    };
    selections.dismiss_extras();
    buffer.set_view_selections(view, selections);
    emit_selection_event(queue);
}

/// `x` clamped into `[lo, hi]`.
pub open spec fn clamp_int(x: int, lo: int, hi: int) -> int {
    if x < lo {
        lo
    } else if x > hi {
        hi
    } else {
        x
    }
}

/// `line`: puts a single selection of `view` at the start of line number
/// `opt` (counted from 1, limited to the lines there are), then emits
/// `selections-modified`. Fails, changing nothing, when `opt` is not a
/// number (see `parse_i32_spec`).
pub fn line(opt: &str, buffer: &mut TextBuffer, view: u64, queue: &mut CommandQueue) -> (r: Result<(), String>)
    requires
        old(buffer).wf(),
        old(queue).wf(),
        old(queue).scopes().last() < u32::MAX,
        parse_i32_spec(opt@) != Ok::<int, Seq<char>>(i32::MIN as int),
    ensures
        match parse_i32_spec(opt@) {
            Err(m) => (r matches Err(e) && e@ == m) && *final(buffer) == *old(buffer) && *final(queue) == *old(
                queue,
            ),
            Ok(n) => {
                let p = Position { column: 0, row: clamp_int(n - 1, 0, old(buffer).lines@.len() - 1) as i32 };
                &&& r is Ok
                &&& selections_set(*old(buffer), *final(buffer), view, seq![Selection { cursor: p, anchor: p }])
                &&& selection_event_queued(*old(queue), *final(queue))
            },
        },
{
    let row_number = match parse_i32(opt) {
        Ok(n) => n,
        Err(e) => {
            return Err(e);
        },
    };
    let last_row = buffer.last_row();
    let wanted = row_number - 1;
    let row = if wanted < 0 {
        0
    } else if wanted > last_row {
        last_row
    } else {
        wanted
    };
    let p = Position::new(0, row);
    let sels = crate::selection::Selections {
        primary_selection: Selection::new().with_anchor(p).with_cursor(p),
        extra_selections: Vec::new(),
    };
    proof {
        assert(sels.all_spec() =~= seq![Selection { cursor: p, anchor: p }]);
    }
    buffer.set_view_selections(view, sels);
    emit_selection_event(queue);
    Ok(())
}

/// `look-set-top`: scrolls `view` so that its top row is the number `opt`,
/// trimmed of whitespace (see `parse_i32_spec`), or 0 when that is negative.
/// Fails, changing nothing, when `opt` is not a number.
pub fn look_set_top(view: &mut crate::state::view::View, opt: &str) -> (r: Result<(), String>)
    ensures
        match parse_i32_spec(crate::unicode::trimmed(opt@)) {
            Err(m) => (r matches Err(e) && e@ == m) && *final(view) == *old(view),
            Ok(n) => r is Ok && final(view).buffer == old(view).buffer && final(view).top_left == Position {
                column: old(view).top_left.column,
                row: if n < 0 {
                    0i32
                } else {
                    n as i32
                },
            },
        },
{
    let new_row = match parse_i32(crate::unicode::trim(opt)) {
        Ok(n) => n,
        Err(e) => {
            return Err(e);
        },
    };
    view.top_left.row = if new_row < 0 {
        0
    } else {
        new_row
    };
    Ok(())
}

/// The lines and the selections of every view after the edit `(range, text)`.
pub open spec fn edited(
    st: (Seq<Seq<char>>, Map<u64, Seq<Selection>>),
    range: Range,
    text: Seq<char>,
) -> (Seq<Seq<char>>, Map<u64, Seq<Selection>>) {
    (lines_after_edit(st.0, range, text), views_after_edit(st.1, st.0, range, text))
}

/// Number of whitespace characters at the start of `line`.
pub open spec fn leading_ws(line: Seq<char>) -> int {
    prefix_len(line, unicode_ws_pred())
}

/// Whether `line`, without its trailing whitespace, ends with `{`.
pub open spec fn ends_with_open_brace(line: Seq<char>) -> bool {
    let t = line.take(line.len() - suffix_len(line, unicode_ws_pred()));
    t.len() > 0 && t.last() == '{'
}

/// `n` spaces.
pub open spec fn spaces(n: int) -> Seq<char> {
    Seq::new(n as nat, |i: int| ' ')
}

/// The flags of `indent` once normalized: `more` when none is given.
pub open spec fn indent_more(more: bool, less: bool, reindent: bool, auto: bool) -> bool {
    more || !(more || less || reindent || auto)
}

/// What `indent` does to line `row`: `None` when it leaves the line as it
/// is, otherwise the number of leading whitespace characters it replaces
/// and the number of spaces it puts in their place. The level changes by one
/// up with `more`, one down with `less`; with `auto` it starts from the
/// indentation of the line above, one level deeper when that line ends with
/// `{`, and with `auto_dedent` only a line holding `}` alone changes, one
/// level less deep.
pub open spec fn indent_change(
    lines: Seq<Seq<char>>,
    row: int,
    more: bool,
    less: bool,
    auto: bool,
    auto_dedent: bool,
    size: int,
) -> Option<(int, int)> {
    let line = lines[row];
    let base_mod: int = (if more { 1int } else { 0int }) - (if less { 1int } else { 0int });
    if auto && auto_dedent && trimmed(line) != seq!['}'] {
        None
    } else if auto && row < 1 {
        None
    } else {
        let mod1 = if auto && auto_dedent { base_mod - 1 } else { base_mod };
        let count = leading_ws(line);
        let mod2 = if auto && ends_with_open_brace(lines[row - 1]) { mod1 + 1 } else { mod1 };
        let base = if auto { leading_ws(lines[row - 1]) } else { count };
        let level = if base / size + mod2 < 0 { 0 } else { base / size + mod2 };
        Some((count, level * size))
    }
}

/// A suffix is no longer than the text.
proof fn lemma_suffix_len_bounds(s: Seq<char>, p: spec_fn(char) -> bool)
    ensures
        0 <= suffix_len(s, p) <= s.len(),
    decreases s.len(),
{
    if s.len() > 0 {
        lemma_suffix_len_bounds(s.drop_last(), p);
    }
}

/// Auto-indent (`indent --auto`) takes the indentation of the line above:
/// it replaces the line's leading whitespace by the line above's, rounded
/// down to whole levels of `size` spaces; below a line that does not end
/// with `{` (trailing whitespace aside), such as one holding no `{`, it goes
/// no deeper than that, and below one that does it goes exactly one level
/// deeper.
pub proof fn law_auto_indent_follows_line_above(lines: Seq<Seq<char>>, row: int, size: int)
    requires
        1 <= row < lines.len(),
        size > 0,
    ensures
        ({
            let above = lines[row - 1];
            let r = indent_change(lines, row, false, false, true, false, size);
            let base = leading_ws(above) / size;
            &&& r is Some
            &&& r->Some_0.0 == leading_ws(lines[row])
            &&& (forall|i: int| 0 <= i < above.len() ==> above[i] != '{') ==> r->Some_0.1 == base * size
            &&& !ends_with_open_brace(above) ==> r->Some_0.1 == base * size
            &&& ends_with_open_brace(above) ==> r->Some_0.1 == (base + 1) * size
        }),
{
    let above = lines[row - 1];
    crate::config_parser::token::lemma_prefix_len_bounds(above, unicode_ws_pred());
    assert(leading_ws(above) / size >= 0) by (nonlinear_arith)
        requires
            leading_ws(above) >= 0,
            size > 0,
    ;
    if forall|i: int| 0 <= i < above.len() ==> above[i] != '{' {
        lemma_suffix_len_bounds(above, unicode_ws_pred());
        let t = above.take(above.len() - suffix_len(above, unicode_ws_pred()));
        if t.len() > 0 {
            assert(t.last() == above[t.len() - 1]);
        }
        assert(!ends_with_open_brace(above));
    }
}

/// The lines and selections after `indent` replaced the leading whitespace
/// of line `row` (see `indent_change`).
pub open spec fn indent_row(
    st: (Seq<Seq<char>>, Map<u64, Seq<Selection>>),
    row: int,
    more: bool,
    less: bool,
    auto: bool,
    auto_dedent: bool,
    size: int,
) -> (Seq<Seq<char>>, Map<u64, Seq<Selection>>) {
    match indent_change(st.0, row, more, less, auto, auto_dedent, size) {
        None => st,
        Some((count, new_count)) => {
            let start = Position { column: 0, row: row as i32 };
            let st1 = if count > 0 {
                edited(st, Range { start, end: Position { column: count as i32, row: row as i32 } }, Seq::empty())
            } else {
                st
            };
            edited(st1, Range { start, end: start }, spaces(new_count))
        },
    }
}

/// The content version and the dirty flag after replacing the first
/// `count` characters of line `row` of `lines` by `new_count` spaces (see
/// `indent_row`), from `vd`.
pub open spec fn indentation_version(
    lines: Seq<Seq<char>>,
    vd: (i32, bool),
    row: int,
    count: int,
    new_count: int,
) -> (i32, bool) {
    let start = Position { column: 0, row: row as i32 };
    let del = Range { start, end: Position { column: count as i32, row: row as i32 } };
    let vd1 = if count > 0 {
        (version_after_edit(vd.0, lines, del, Seq::empty()), vd.1 || edit_changes(lines, del, Seq::empty()))
    } else {
        vd
    };
    let lines1 = if count > 0 {
        lines_after_edit(lines, del, Seq::empty())
    } else {
        lines
    };
    (
        version_after_edit(vd1.0, lines1, Range { start, end: start }, spaces(new_count)),
        vd1.1 || edit_changes(lines1, Range { start, end: start }, spaces(new_count)),
    )
}

/// The content version and the dirty flag after `indent` changed line
/// `row` (see `indent_row`), from `vd`.
pub open spec fn indent_row_version(
    lines: Seq<Seq<char>>,
    vd: (i32, bool),
    row: int,
    more: bool,
    less: bool,
    auto: bool,
    auto_dedent: bool,
    size: int,
) -> (i32, bool) {
    match indent_change(lines, row, more, less, auto, auto_dedent, size) {
        None => vd,
        Some((count, new_count)) => indentation_version(lines, vd, row, count, new_count),
    }
}

/// The content version and the dirty flag, from `vd`, after `indent` went
/// through the first `k` lines (see `indented`).
pub open spec fn indented_version(
    lines: Seq<Seq<char>>,
    all: Map<u64, Seq<Selection>>,
    sels: Seq<Selection>,
    more: bool,
    less: bool,
    auto: bool,
    auto_dedent: bool,
    size: int,
    vd: (i32, bool),
    k: nat,
) -> (i32, bool)
    decreases k,
{
    if k == 0 {
        vd
    } else {
        let prev = indented(lines, all, sels, more, less, auto, auto_dedent, size, (k - 1) as nat);
        let pv = indented_version(lines, all, sels, more, less, auto, auto_dedent, size, vd, (k - 1) as nat);
        if row_in_selections(sels, k - 1) && k - 1 < prev.0.len() {
            indent_row_version(prev.0, pv, k - 1, more, less, auto, auto_dedent, size)
        } else {
            pv
        }
    }
}

/// Whether row `r` lies between the start and the end of one of `sels`.
pub open spec fn row_in_selections(sels: Seq<Selection>, r: int) -> bool {
    exists|i: int| 0 <= i < sels.len() && sels[i].start_spec().row <= r <= #[trigger] sels[i].end_spec().row
}

/// Whether the text after `indent` changed line `row` still fits.
pub open spec fn indent_row_fits(
    st: (Seq<Seq<char>>, Map<u64, Seq<Selection>>),
    row: int,
    more: bool,
    less: bool,
    auto: bool,
    auto_dedent: bool,
    size: int,
) -> bool {
    match indent_change(st.0, row, more, less, auto, auto_dedent, size) {
        None => true,
        Some((count, new_count)) => join_lines(st.0).len() - count + new_count < i32::MAX,
    }
}

/// The lines and the selections of every view after `indent` went through
/// the first `k` lines, changing those that one of `sels` covers (see
/// `indent_row`).
pub open spec fn indented(
    lines: Seq<Seq<char>>,
    all: Map<u64, Seq<Selection>>,
    sels: Seq<Selection>,
    more: bool,
    less: bool,
    auto: bool,
    auto_dedent: bool,
    size: int,
    k: nat,
) -> (Seq<Seq<char>>, Map<u64, Seq<Selection>>)
    decreases k,
{
    if k == 0 {
        (lines, all)
    } else {
        let prev = indented(lines, all, sels, more, less, auto, auto_dedent, size, (k - 1) as nat);
        if row_in_selections(sels, k - 1) && k - 1 < prev.0.len() {
            indent_row(prev, k - 1, more, less, auto, auto_dedent, size)
        } else {
            prev
        }
    }
}

/// Whether step `k` of `indent` (line `k`) keeps the text short enough.
pub open spec fn indent_step_fits(
    lines: Seq<Seq<char>>,
    all: Map<u64, Seq<Selection>>,
    sels: Seq<Selection>,
    more: bool,
    less: bool,
    auto: bool,
    auto_dedent: bool,
    size: int,
    k: nat,
) -> bool {
    let prev = indented(lines, all, sels, more, less, auto, auto_dedent, size, k);
    row_in_selections(sels, k as int) && k < prev.0.len() ==> indent_row_fits(
        prev,
        k as int,
        more,
        less,
        auto,
        auto_dedent,
        size,
    )
}

/// Number of whitespace characters at the start of `chars`.
fn leading_ws_count(chars: &Vec<char>) -> (r: usize)
    ensures
        r == leading_ws(chars@),
        r <= chars@.len(),
{
    let mut a: usize = 0;
    while a < chars.len() && char_is_whitespace(chars[a])
        invariant
            a <= chars.len(),
            forall|j: int| 0 <= j < a ==> #[trigger] unicode_ws_pred()(chars@[j]),
        decreases chars.len() - a,
    {
        a += 1;
    }
    proof {
        lemma_prefix_len(chars@, unicode_ws_pred(), a as int);
    }
    a
}

/// Whether `chars`, without its trailing whitespace, ends with `{`.
fn ends_with_open_brace_exec(chars: &Vec<char>) -> (r: bool)
    ensures
        r == ends_with_open_brace(chars@),
{
    let mut b: usize = chars.len();
    while b > 0 && char_is_whitespace(chars[b - 1])
        invariant
            b <= chars.len(),
            forall|j: int| b <= j < chars.len() ==> #[trigger] unicode_ws_pred()(chars@[j]),
        decreases b,
    {
        b -= 1;
    }
    proof {
        lemma_suffix_len(chars@, unicode_ws_pred(), b as int);
        assert(chars@.take(b as int).len() == b);
        if b > 0 {
            assert(chars@.take(b as int).last() == chars@[b - 1]);
        }
    }
    b > 0 && chars[b - 1] == '{'
}

/// A string of `n` spaces.
fn spaces_string(n: usize) -> (r: String)
    ensures
        r@ == spaces(n as int),
{
    let mut r = String::new();
    let mut i: usize = 0;
    while i < n
        invariant
            i <= n,
            r@ == spaces(i as int),
        decreases n - i,
    {
        push_char(&mut r, ' ');
        i += 1;
        proof {
            assert(r@ =~= spaces(i as int));
        }
    }
    r
}

/// Deleting columns `0..count` of line `row`, within the line, shortens
/// the text by `count` and keeps the lines.
proof fn lemma_delete_indentation(lines: Seq<Seq<char>>, row: int, count: int)
    requires
        0 <= row < lines.len(),
        0 < count <= lines[row].len(),
        join_lines(lines).len() < i32::MAX,
    ensures
        ({
            let range = Range {
                start: Position { column: 0, row: row as i32 },
                end: Position { column: count as i32, row: row as i32 },
            };
            &&& edit_allowed(lines, range, Seq::<char>::empty())
            &&& join_lines(lines_after_edit(lines, range, Seq::<char>::empty())).len() == join_lines(lines).len()
                - count
            &&& lines_after_edit(lines, range, Seq::<char>::empty()).len() == lines.len()
        }),
{
    crate::state::text_buffer::lemma_lines_bounded(lines);
    let range = Range {
        start: Position { column: 0, row: row as i32 },
        end: Position { column: count as i32, row: row as i32 },
    };
    assert(crate::state::edit_model::limit_range_edge_in(lines, range.start) == range.start);
    assert(crate::state::edit_model::limit_range_edge_in(lines, range.end) == range.end);
    assert(deleted_span_in(lines, range) == range);
    lemma_delete_lines(lines, row, 0, row, count);
}

/// What `indent` does to line `row` (see `indent_change`).
fn indent_change_exec(
    buffer: &TextBuffer,
    row: i32,
    more: bool,
    less: bool,
    auto: bool,
    auto_dedent: bool,
    size: i32,
) -> (r: Option<(usize, i64)>)
    requires
        buffer.wf(),
        0 <= row < buffer.lines@.len(),
        size > 0,
    ensures
        match indent_change(buffer.lines_view(), row as int, more, less, auto, auto_dedent, size as int) {
            None => r is None,
            Some((c, n)) => r == Some((c as usize, n as i64)) && 0 <= c <= buffer.lines_view()[row as int].len()
                && 0 <= n <= (i32::MAX + 2) * i32::MAX,
        },
{
    let ghost lines = buffer.lines_view();
    proof {
        crate::state::text_buffer::lemma_lines_bounded(lines);
    }
    let line_str: &str = match buffer.line(row) {
        Some(l) => l,
        None => "",
    };
    let line = chars_of(line_str);
    proof {
        assert(line@ == lines[row as int]);
    }
    let base_mod: i32 = (if more { 1i32 } else { 0i32 }) - (if less { 1i32 } else { 0i32 });
    let mut level_mod = base_mod;
    if auto && auto_dedent {
        let t = crate::unicode::trim(line_str);
        proof {
            reveal_strlit("}");
            assert("}"@ =~= seq!['}']);
        }
        if !str_eq(t, "}") {
            return None;
        }
        level_mod = level_mod - 1;
    }
    let count = leading_ws_count(&line);
    let base: usize = if auto {
        if row < 1 {
            return None;
        }
        let prev = match buffer.line(row - 1) {
            Some(l) => chars_of(l),
            None => Vec::new(),
        };
        proof {
            assert(prev@ == lines[row - 1]);
        }
        if ends_with_open_brace_exec(&prev) {
            level_mod = level_mod + 1;
        }
        leading_ws_count(&prev)
    } else {
        count
    };
    let level_raw: i64 = (base as i64) / (size as i64) + level_mod as i64;
    let level: i64 = if level_raw < 0 {
        0
    } else {
        level_raw
    };
    proof {
        assert(base <= lines[row as int].len() || base <= lines[row - 1].len());
        assert(level <= base + 2) by (nonlinear_arith)
            requires
                level == (if level_raw < 0 { 0 } else { level_raw }),
                level_raw == (base as int) / (size as int) + level_mod,
                size > 0,
                level_mod <= 2,
                base >= 0,
        ;
        assert(level * size <= (base + 2) * size) by (nonlinear_arith)
            requires
                0 <= level <= base + 2,
                size > 0,
        ;
        assert((base + 2) * size <= (i32::MAX + 2) * i32::MAX) by (nonlinear_arith)
            requires
                0 <= base < i32::MAX,
                0 < size <= i32::MAX,
        ;
        assert(0 <= level * size) by (nonlinear_arith)
            requires
                0 <= level,
                size > 0,
        ;
        let base_mod_s: int = (if more { 1int } else { 0int }) - (if less { 1int } else { 0int });
        let mod1: int = if auto && auto_dedent { base_mod_s - 1 } else { base_mod_s };
        assert(base_mod == base_mod_s);
        assert(count == leading_ws(lines[row as int]));
        assert(level_mod == (if auto && ends_with_open_brace(lines[row - 1]) { mod1 + 1 } else { mod1 }));
    }
    Some((count, level * (size as i64)))
}

/// Replaces the first `count` characters of line `row`, its leading
/// whitespace, by `new_count` spaces.
fn replace_indentation(buffer: &mut TextBuffer, row: i32, count: usize, new_count: usize)
    requires
        old(buffer).wf(),
        0 <= row < old(buffer).lines@.len(),
        count <= old(buffer).lines_view()[row as int].len(),
        old(buffer).content().len() - count + new_count < i32::MAX,
    ensures
        final(buffer).wf(),
        final(buffer).path == old(buffer).path,
        ({
            let st = (old(buffer).lines_view(), old(buffer).selections.view_spec());
            let start = Position { column: 0, row: row as i32 };
            let st1 = if count > 0 {
                edited(st, Range { start, end: Position { column: count as i32, row: row as i32 } }, Seq::empty())
            } else {
                st
            };
            let st2 = edited(st1, Range { start, end: start }, spaces(new_count as int));
            &&& final(buffer).lines_view() == st2.0
            &&& final(buffer).selections.view_spec() == st2.1
        }),
        final(buffer).lines@.len() == old(buffer).lines@.len(),
        final(buffer).content().len() == old(buffer).content().len() - count + new_count,
        (final(buffer).content_version, final(buffer).dirty) == indentation_version(
            old(buffer).lines_view(),
            (old(buffer).content_version, old(buffer).dirty),
            row as int,
            count as int,
            new_count as int,
        ),
{
    let ghost lines = buffer.lines_view();
    let ghost m = buffer.selections.view_spec();
    let start = Position::new(0, row);
    proof {
        crate::state::text_buffer::lemma_lines_bounded(lines);
    }
    if count > 0 {
        let indent_sel = Selection::new().with_anchor(start).with_cursor(Position::new(count as i32 - 1, row));
        proof {
            lemma_delete_indentation(lines, row as int, count as int);
            assert(indent_sel.to_range_spec() == Range { start, end: Position { column: count as i32, row } });
        }
        let _ = buffer.delete_selection(&indent_sel);
        proof {
            assert(buffer.selections.view_spec() =~= views_after_edit(
                m,
                lines,
                indent_sel.to_range_spec(),
                Seq::<char>::empty(),
            ));
        }
    }
    let ghost lines1 = buffer.lines_view();
    let ghost m1 = buffer.selections.view_spec();
    let text = spaces_string(new_count);
    proof {
        lemma_insert_grows(lines1, start, spaces(new_count as int));
        lemma_spaces_one_line(new_count as int);
    }
    let _ = buffer.insert_str_at(text, start);
    proof {
        assert(buffer.selections.view_spec() =~= views_after_edit(
            m1,
            lines1,
            Range { start, end: start },
            spaces(new_count as int),
        ));
    }
}

/// Spaces hold no line feed: inserting them keeps the number of lines.
proof fn lemma_spaces_one_line(n: int)
    requires
        n >= 0,
    ensures
        split_lines(spaces(n)).len() == 1,
{
    crate::state::lines::lemma_split_no_newline(spaces(n));
}

/// The edits of `indent` on line `row` (see `indent_row`), when the text
/// they give fits; tells whether it did them.
fn indent_row_exec(
    buffer: &mut TextBuffer,
    row: i32,
    more: bool,
    less: bool,
    auto: bool,
    auto_dedent: bool,
    size: i32,
    len: usize,
) -> (r: Option<usize>)
    requires
        old(buffer).wf(),
        0 <= row < old(buffer).lines@.len(),
        size > 0,
        len == old(buffer).content().len(),
    ensures
        final(buffer).wf(),
        final(buffer).path == old(buffer).path,
        r matches Some(l) ==> l == final(buffer).content().len(),
        ({
            let st = (old(buffer).lines_view(), old(buffer).selections.view_spec());
            &&& r is Some == indent_row_fits(st, row as int, more, less, auto, auto_dedent, size as int)
            &&& r is Some ==> final(buffer).lines_view() == indent_row(st, row as int, more, less, auto, auto_dedent, size as int).0
                && final(buffer).selections.view_spec() == indent_row(
                st,
                row as int,
                more,
                less,
                auto,
                auto_dedent,
                size as int,
            ).1
            &&& r is None ==> *final(buffer) == *old(buffer)
            &&& r is Some ==> (final(buffer).content_version, final(buffer).dirty) == indent_row_version(
                st.0,
                (old(buffer).content_version, old(buffer).dirty),
                row as int,
                more,
                less,
                auto,
                auto_dedent,
                size as int,
            )
        }),
        final(buffer).lines@.len() == old(buffer).lines@.len(),
{
    let ghost change = indent_change(buffer.lines_view(), row as int, more, less, auto, auto_dedent, size as int);
    proof {
        crate::state::text_buffer::lemma_lines_bounded(buffer.lines_view());
    }
    match indent_change_exec(buffer, row, more, less, auto, auto_dedent, size) {
        None => Some(len),
        Some((count, new_count)) => {
            proof {
                assert(change == Some((count as int, new_count as int)));
                assert(count <= buffer.lines_view()[row as int].len());
                assert(buffer.lines_view()[row as int].len() <= buffer.content().len());
            }
            if !((len as i64) - (count as i64) + new_count < i32::MAX as i64) {
                return None;
            }
            replace_indentation(buffer, row, count, new_count as usize);
            Some(len - count + new_count as usize)
        },
    }
}

/// Whether row `row` lies between the start and the end of one of `sels`.
fn row_covered(sels: &Vec<Selection>, row: i32) -> (r: bool)
    ensures
        r == row_in_selections(sels@, row as int),
{
    let mut i: usize = 0;
    while i < sels.len()
        invariant
            i <= sels.len(),
            forall|j: int| 0 <= j < i ==> !(sels@[j].start_spec().row <= row <= #[trigger] sels@[j].end_spec().row),
        decreases sels.len() - i,
    {
        let s = sels[i];
        if s.start().row <= row && row <= s.end().row {
            proof {
                assert(sels@[i as int].start_spec().row <= row <= sels@[i as int].end_spec().row);
            }
            return true;
        }
        i += 1;
    }
    false
}

/// `indent`: changes the indentation of each line that a selection of `view`
/// covers, from the first line to the last (see `indent_row`), the
/// selections taken as they were at the start; `indent_size` spaces make a
/// level. The flags `more`, `less`, `reindent`, `auto` and `auto-dedent`
/// choose how (see `indent_change`); with none of the first four, `more`.
/// Then emits `buffer-modified` and `selections-modified`. Stops with an
/// error, the lines before done, at the first line whose new indentation
/// would make the text too long for positions to hold.
#[verifier::rlimit(60)]
pub fn indent(opt: &ParsedOptions, indent_size: i32, buffer: &mut TextBuffer, view: u64, queue: &mut CommandQueue) -> (r: Result<
    (),
    String,
>)
    requires
        old(buffer).wf(),
        old(buffer).selections.view_spec().contains_key(view),
        indent_size > 0,
        old(queue).wf(),
        old(queue).scopes().last() + 2 <= u32::MAX,
    ensures
        final(buffer).wf(),
        final(buffer).path == old(buffer).path,
        ({
            let g = opt.given();
            let more = indent_more(g.contains("more"@), g.contains("less"@), g.contains("reindent"@), g.contains("auto"@));
            let less = g.contains("less"@);
            let auto = g.contains("auto"@);
            let auto_dedent = g.contains("auto-dedent"@);
            let l0 = old(buffer).lines_view();
            let m0 = old(buffer).selections.view_spec();
            let s0 = m0[view];
            let n = l0.len();
            let size = indent_size as int;
            &&& (r is Ok <==> forall|k: nat| k < n ==> indent_step_fits(l0, m0, s0, more, less, auto, auto_dedent, size, k))
            &&& r is Ok ==> (final(buffer).content_version, final(buffer).dirty) == indented_version(
                l0,
                m0,
                s0,
                more,
                less,
                auto,
                auto_dedent,
                size,
                (old(buffer).content_version, old(buffer).dirty),
                n,
            )
            &&& r matches Err(_) ==> exists|j: nat|
                j < n && !indent_step_fits(l0, m0, s0, more, less, auto, auto_dedent, size, j) && (forall|i: nat|
                    i < j ==> indent_step_fits(l0, m0, s0, more, less, auto, auto_dedent, size, i)) && (
                final(buffer).content_version,
                final(buffer).dirty,
            ) == indented_version(
                l0,
                m0,
                s0,
                more,
                less,
                auto,
                auto_dedent,
                size,
                (old(buffer).content_version, old(buffer).dirty),
                j,
            )
            &&& r is Ok ==> final(buffer).lines_view() == indented(l0, m0, s0, more, less, auto, auto_dedent, size, n).0
                && final(buffer).selections.view_spec() == indented(l0, m0, s0, more, less, auto, auto_dedent, size, n).1
                && edit_events_queued(*old(queue), *final(queue), path_text(*old(buffer)))
            &&& r matches Err(e) ==> e@ == "buffer too large"@ && *final(queue) == *old(queue) && exists|j: nat|
                j < n && !indent_step_fits(l0, m0, s0, more, less, auto, auto_dedent, size, j) && (forall|i: nat|
                    i < j ==> indent_step_fits(l0, m0, s0, more, less, auto, auto_dedent, size, i))
                    && final(buffer).lines_view() == indented(l0, m0, s0, more, less, auto, auto_dedent, size, j).0
                    && final(buffer).selections.view_spec() == indented(l0, m0, s0, more, less, auto, auto_dedent, size, j).1
        }),
{
    let more_flag = opt.contains("more");
    let less = opt.contains("less");
    let reindent = opt.contains("reindent");
    let auto = opt.contains("auto");
    let auto_dedent = opt.contains("auto-dedent");
    let more = more_flag || !(more_flag || less || reindent || auto);
    let ghost l0 = buffer.lines_view();
    let ghost m0 = buffer.selections.view_spec();
    let ghost s0 = m0[view];
    let ghost n = l0.len();
    let snapshot = match buffer.view_selections(view) {
        Some(sels) => sels.all(),
        None => Vec::new(),
    };
    let line_count = buffer.line_count();
    let mut len = crate::text::char_count(buffer.content_to_string().as_str());
    let mut row: i32 = 0;
    while row < line_count
        invariant
            0 <= row <= line_count,
            line_count == n,
            more == indent_more(
                opt.given().contains("more"@),
                opt.given().contains("less"@),
                opt.given().contains("reindent"@),
                opt.given().contains("auto"@),
            ),
            less == opt.given().contains("less"@),
            auto == opt.given().contains("auto"@),
            auto_dedent == opt.given().contains("auto-dedent"@),
            snapshot@ == s0,
            s0 == m0[view],
            l0 == old(buffer).lines_view(),
            m0 == old(buffer).selections.view_spec(),
            n == l0.len(),
            indent_size > 0,
            buffer.wf(),
            buffer.path == old(buffer).path,
            buffer.lines@.len() == n,
            len == buffer.content().len(),
            buffer.lines_view() == indented(l0, m0, s0, more, less, auto, auto_dedent, indent_size as int, row as nat).0,
            buffer.selections.view_spec() == indented(l0, m0, s0, more, less, auto, auto_dedent, indent_size as int, row as nat).1,
            forall|i: nat| i < row ==> indent_step_fits(l0, m0, s0, more, less, auto, auto_dedent, indent_size as int, i),
            (buffer.content_version, buffer.dirty) == indented_version(
                l0,
                m0,
                s0,
                more,
                less,
                auto,
                auto_dedent,
                indent_size as int,
                (old(buffer).content_version, old(buffer).dirty),
                row as nat,
            ),
            *queue == *old(queue),
        decreases line_count - row,
    {
        if row_covered(&snapshot, row) {
            match indent_row_exec(buffer, row, more, less, auto, auto_dedent, indent_size, len) {
                Some(l) => {
                    len = l;
                },
                None => {
                    let e = to_owned_string("buffer too large");
                    proof {
                        reveal_strlit("buffer too large");
                        let j = row as nat;
                        assert(!indent_step_fits(l0, m0, s0, more, less, auto, auto_dedent, indent_size as int, j));
                        assert(j < n && !indent_step_fits(l0, m0, s0, more, less, auto, auto_dedent, indent_size as int, j)
                            && (forall|i: nat| i < j ==> indent_step_fits(l0, m0, s0, more, less, auto, auto_dedent, indent_size as int, i))
                            && buffer.lines_view() == indented(l0, m0, s0, more, less, auto, auto_dedent, indent_size as int, j).0
                            && buffer.selections.view_spec() == indented(l0, m0, s0, more, less, auto, auto_dedent, indent_size as int, j).1);
                    }
                    return Err(e);
                },
            }
        }
        proof {
            assert(indent_step_fits(l0, m0, s0, more, less, auto, auto_dedent, indent_size as int, row as nat));
        }
        row += 1;
    }
    emit_edit_events(queue, buffer.path_str());
    Ok(())
}

/// `format-set`: sets the file format of `buffer` to `opt`, trimmed, and
/// queues `state-set format <format>`; clears it, queuing nothing, when that
/// is empty.
pub fn format_set(opt: &str, buffer: &mut TextBuffer, queue: &mut CommandQueue)
    requires
        old(queue).wf(),
        old(queue).scopes().last() < u32::MAX,
    ensures
        ({
            let f = crate::unicode::trimmed(opt@);
            &&& f.len() == 0 ==> final(buffer).forced_format is None && *final(queue) == *old(queue)
            &&& f.len() > 0 ==> (final(buffer).forced_format matches Some(g) && g@ == f) && final(queue).wf()
                && final(queue).commands() == old(queue).commands().insert(
                old(queue).scopes().last() as int,
                "state-set "@ + "format"@ + seq![' '] + f,
            )
            &&& final(buffer).lines == old(buffer).lines
            &&& final(buffer).selections == old(buffer).selections
            &&& final(buffer).history == old(buffer).history
            &&& final(buffer).path == old(buffer).path
            &&& final(buffer).dirty == old(buffer).dirty
            &&& final(buffer).content_version == old(buffer).content_version
        }),
{
    let format = crate::unicode::trim(opt);
    if crate::text::char_count(format) == 0 {
        buffer.forced_format = None;
    } else {
        proof {
            lemma_queue_has_scope(*queue);
        }
        queue.set_state(crate::config::ConfigState::FORMAT, format);
        buffer.forced_format = Some(to_owned_string(format));
    }
}

/// `look-keep-primary-cursor-in-view`: scrolls `view`, whose content shows
/// in `view_rect`, by as much as the primary cursor of its selections in
/// `buffer` lies outside that rectangle, so that the cursor shows.
pub fn look_keep_primary_cursor_in_view(
    view: &mut crate::state::view::View,
    view_rect: crate::ui::layout::Rect,
    buffer: &TextBuffer,
    view_handle: u64,
)
    requires
        buffer.wf(),
        buffer.selections.view_spec().contains_key(view_handle),
        view_rect.offset_fits(buffer.selections.view_spec()[view_handle][0].cursor),
    ensures
        final(view).buffer == old(view).buffer,
        final(view).top_left == old(view).top_left.offset_spec(
            view_rect.outside_offset(buffer.selections.view_spec()[view_handle][0].cursor),
        ),
{
    let cursor = match buffer.view_selections(view_handle) {
        Some(sels) => sels.primary().cursor,
        None => Position::zero(),
    };
    let offset = view_rect.offset_from_position(cursor);
    view.top_left = view.top_left.offset(offset);
}

} // verus!
