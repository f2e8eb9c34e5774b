//! Pasting the register at each selection.

use vstd::prelude::*;

use crate::command::CommandQueue;
use crate::commands::editor::{edit_events_queued, emit_edit_events, path_text};
use crate::position::{Offset, Position};
use crate::range::Range;
use crate::selection::{Selection, Selections};
use crate::state::edit_model::{inverse_edit_in, limit_position_in, lines_after_edit};
use crate::state::lines::{
    extend_ends, insert_lines, join_lines, lemma_extend_ends_index, lemma_insert_lines, lemma_join_split, newline_index,
    split_lines,
};
use crate::state::register::Register;
use crate::state::text_buffer::{TextBuffer, moved_horizontally_in};
use crate::text::{chars_of, string_from_range};

verus! {

/// The texts of the register: its main content, then the others.
pub open spec fn register_texts(reg: Register) -> Seq<Seq<char>> {
    seq![reg.content@] + reg.extra_content@.map_values(|s: String| s@)
}

/// The end of the last line.
pub open spec fn end_of(lines: Seq<Seq<char>>) -> Position {
    Position { column: lines.last().len() as i32, row: (lines.len() - 1) as i32 }
}

/// Whether a text ends with a line feed: it is then pasted as whole lines.
pub open spec fn ends_line(text: Seq<char>) -> bool {
    text.len() > 0 && text.last() == '\n'
}

/// Where `text` is pasted for `sel`: whole lines go to the start of the
/// selection's first line (`before`) or of the line after its last; other
/// text goes at the selection's start (`before`), or after its end: on the
/// next line when the end is the end of the text, else one character on.
pub open spec fn paste_position(lines: Seq<Seq<char>>, sel: Selection, text: Seq<char>, before: bool) -> Position {
    if ends_line(text) {
        if before {
            Position { column: 0, row: sel.start_spec().row }
        } else {
            Position { column: 0, row: (sel.end_spec().row + 1) as i32 }
        }
    } else if before {
        sel.start_spec()
    } else if sel.end_spec() == end_of(lines) {
        Position { column: 0, row: (sel.end_spec().row + 1) as i32 }
    } else {
        match moved_horizontally_in(lines, sel.end_spec(), 1) {
            Some(p) => p,
            None => sel.end_spec(),
        }
    }
}

/// One paste: past the end of the text, a line feed is first added at the
/// end (and a final line feed of the text dropped); then the text is
/// inserted. The lines after it, and the selection of what was inserted.
pub open spec fn paste_step(lines: Seq<Seq<char>>, sel: Selection, text: Seq<char>, before: bool) -> (
    Seq<Seq<char>>,
    Selection,
) {
    let at = paste_position(lines, sel, text, before);
    let e = end_of(lines);
    let (l1, t) = if e.precedes_spec(at) {
        (
            lines_after_edit(lines, Range { start: e, end: e }, seq!['\n']),
            if ends_line(text) {
                text.drop_last()
            } else {
                text
            },
        )
    } else {
        (lines, text)
    };
    let inv = inverse_edit_in(l1, Range { start: at, end: at }, t);
    (
        lines_after_edit(l1, Range { start: at, end: at }, t),
        Selection { anchor: inv.0.start, cursor: inv.0.end.offset_spec(Offset { column: -1i32, row: 0i32 }) },
    )
}

/// Pasting at the first `k` selections of `sels`, from the last to the
/// first, selection `i` getting text `i` of the register (cycling): the
/// lines after it, and the selections with each of the first `k` replaced
/// by the selection of what was pasted there.
pub open spec fn paste_fold(
    lines: Seq<Seq<char>>,
    sels: Seq<Selection>,
    texts: Seq<Seq<char>>,
    before: bool,
    k: int,
) -> (Seq<Seq<char>>, Seq<Selection>)
    decreases k,
{
    if k <= 0 {
        (lines, sels)
    } else {
        let (l1, s1) = paste_step(lines, sels[k - 1], texts[(k - 1) % (texts.len() as int)], before);
        let (l2, ss) = paste_fold(l1, sels, texts, before, k - 1);
        (l2, ss.update(k - 1, s1))
    }
}

proof fn lemma_paste_fold_len(lines: Seq<Seq<char>>, sels: Seq<Selection>, texts: Seq<Seq<char>>, before: bool, k: int)
    requires
        k <= sels.len(),
    ensures
        paste_fold(lines, sels, texts, before, k).1.len() == sels.len(),
        forall|j: int| k <= j < sels.len() ==> #[trigger] paste_fold(lines, sels, texts, before, k).1[j] == sels[j],
    decreases k,
{
    if k > 0 {
        let (l1, s1) = paste_step(lines, sels[k - 1], texts[(k - 1) % (texts.len() as int)], before);
        lemma_paste_fold_len(l1, sels, texts, before, k - 1);
    }
}

/// Inserting text adds its length to the text.
proof fn lemma_insert_grows(lines: Seq<Seq<char>>, at: Position, t: Seq<char>)
    requires
        lines.len() >= 1,
    ensures
        join_lines(lines_after_edit(lines, Range { start: at, end: at }, t)).len() == join_lines(lines).len() + t.len(),
{
    if t.len() > 0 {
        let a = limit_position_in(lines, at);
        crate::state::text_buffer::lemma_lines_bounded(lines);
        lemma_insert_lines(lines, a.row as int, a.column as int, t);
    }
}

/// The longest text of the register.
pub open spec fn longest(texts: Seq<Seq<char>>) -> int
    decreases texts.len(),
{
    if texts.len() == 0 {
        0
    } else if texts.last().len() > longest(texts.drop_last()) {
        texts.last().len() as int
    } else {
        longest(texts.drop_last())
    }
}

proof fn lemma_longest(texts: Seq<Seq<char>>, i: int)
    requires
        0 <= i < texts.len(),
    ensures
        texts[i].len() <= longest(texts),
    decreases texts.len(),
{
    if i < texts.len() - 1 {
        lemma_longest(texts.drop_last(), i);
        assert(texts.drop_last()[i] == texts[i]);
    }
}

/// One paste of `text_ref` for `sel` (see `paste_step`); returns the
/// selection of what was pasted.
fn paste_one(buffer: &mut TextBuffer, sel: Selection, text_ref: &str, before: bool) -> (r: Selection)
    requires
        old(buffer).wf(),
        sel.end_spec().row < i32::MAX,
        old(buffer).content().len() + text_ref@.len() + 1 < i32::MAX,
    ensures
        final(buffer).wf(),
        final(buffer).path == old(buffer).path,
        final(buffer).selections.view_spec().dom() == old(buffer).selections.view_spec().dom(),
        (final(buffer).lines_view(), r) == paste_step(old(buffer).lines_view(), sel, text_ref@, before),
        final(buffer).content().len() <= old(buffer).content().len() + text_ref@.len() + 1,
{
    let ghost lines = buffer.lines_view();
    let ghost text = text_ref@;
    let chars = chars_of(text_ref);
    let line_mode = chars.len() > 0 && chars[chars.len() - 1] == '\n';
    let e = buffer.end_position();
    let at = if line_mode {
        if before {
            Position { column: 0, row: sel.start().row }
        } else {
            Position { column: 0, row: sel.end().row + 1 }
        }
    } else if before {
        sel.start()
    } else if sel.end().row == e.row && sel.end().column == e.column {
        Position { column: 0, row: sel.end().row + 1 }
    } else {
        match buffer.move_position_horizontally(sel.end(), 1) {
            Some(p) => p,
            None => sel.end(),
        }
    };
    proof {
        assert(e == end_of(lines));
        assert(at == paste_position(lines, sel, text, before));
    }
    let mut t_len = chars.len();
    if e.precedes(&at) {
        let _ = buffer.insert_char_at('\n', e);
        proof {
            lemma_insert_grows(lines, e, seq!['\n']);
        }
        if line_mode {
            t_len = t_len - 1;
        }
    }
    let t = string_from_range(&chars, 0, t_len);
    let ghost l1 = buffer.lines_view();
    proof {
        assert(chars@.subrange(0, chars.len() as int) =~= text);
        assert(chars.len() > 0 ==> chars@.subrange(0, chars.len() - 1) =~= text.drop_last());
        lemma_insert_grows(l1, at, t@);
    }
    let inserted = match buffer.insert_str_at(t, at) {
        Ok(s) => s,
        Err(_) => sel,
    };
    inserted
}

/// `paste`: pastes the texts of the register at the selections of `view`,
/// from the last selection to the first (see `paste_fold`), selects what
/// was pasted, then emits `buffer-modified` and `selections-modified`.
#[verifier::rlimit(40)]
pub fn paste(before: bool, buffer: &mut TextBuffer, view: u64, register: &Register, queue: &mut CommandQueue)
    requires
        old(buffer).wf(),
        old(buffer).selections.view_spec().contains_key(view),
        forall|j: int|
            0 <= j < old(buffer).selections.view_spec()[view].len() ==> (#[trigger] old(buffer).selections.view_spec()[
                view][j]).end_spec().row < i32::MAX,
        old(buffer).content().len() + old(buffer).selections.view_spec()[view].len() * (longest(register_texts(*register))
            + 1) < i32::MAX,
        old(queue).wf(),
        old(queue).scopes().last() + 2 <= u32::MAX,
    ensures
        final(buffer).wf(),
        ({
            let r = paste_fold(
                old(buffer).lines_view(),
                old(buffer).selections.view_spec()[view],
                register_texts(*register),
                before,
                old(buffer).selections.view_spec()[view].len() as int,
            );
            &&& final(buffer).lines_view() == r.0
            &&& final(buffer).selections.view_spec()[view] == r.1
        }),
        final(buffer).path == old(buffer).path,
        edit_events_queued(*old(queue), *final(queue), path_text(*old(buffer))),
{
    let snapshot = match buffer.view_selections(view) {
        Some(s) => s.all(),
        None => Vec::new(),
    };
    let texts: Vec<&str> = register.iter();
    let ghost tv = register_texts(*register);
    proof {
        assert forall|j: int| 0 <= j < texts@.len() implies (#[trigger] texts@[j])@ == tv[j] by {
            if j > 0 {
                assert(texts@[(j - 1) + 1]@ == register.extra_content@[j - 1]@);
            }
        }
    }
    let ghost sv = snapshot@;
    let ghost l0 = buffer.lines_view();
    let ghost c0 = buffer.content().len();
    let ghost lt = longest(tv);
    let n = snapshot.len();
    let mut out: Vec<Selection> = Vec::new();
    let mut q: usize = 0;
    while q < n
        invariant
            q <= n,
            n == snapshot@.len(),
            out@ == snapshot@.take(q as int),
        decreases n - q,
    {
        out.push(snapshot[q]);
        q += 1;
        proof {
            assert(out@ =~= snapshot@.take(q as int));
        }
    }
    proof {
        assert(out@ =~= sv);
        lemma_paste_fold_len(l0, sv, tv, before, n as int);
        assert(lt >= 0) by {
            lemma_longest(tv, 0);
        }
    }
    let mut i: usize = n;
    while i > 0
        invariant
            i <= n,
            n == sv.len(),
            sv == snapshot@,
            tv.len() == texts@.len(),
            tv.len() >= 1,
            lt == longest(tv),
            lt >= 0,
            forall|j: int| 0 <= j < texts@.len() ==> (#[trigger] texts@[j])@ == tv[j],
            forall|j: int| 0 <= j < n ==> (#[trigger] sv[j]).end_spec().row < i32::MAX,
            buffer.wf(),
            buffer.path == old(buffer).path,
            buffer.selections.view_spec().dom() == old(buffer).selections.view_spec().dom(),
            c0 + n * (lt + 1) < i32::MAX,
            buffer.content().len() <= c0 + (n - i) * (lt + 1),
            out@.len() == n,
            paste_fold(l0, sv, tv, before, n as int).0 == paste_fold(buffer.lines_view(), sv, tv, before, i as int).0,
            forall|j: int| 0 <= j < i ==> #[trigger] paste_fold(l0, sv, tv, before, n as int).1[j] == paste_fold(
                buffer.lines_view(),
                sv,
                tv,
                before,
                i as int,
            ).1[j],
            forall|j: int| i <= j < n ==> #[trigger] paste_fold(l0, sv, tv, before, n as int).1[j] == out@[j],
        decreases i,
    {
        let k = i - 1;
        let sel = snapshot[k];
        let text_ref: &str = texts[k % texts.len()];
        let ghost lines = buffer.lines_view();
        proof {
            let w = (k as int) % (tv.len() as int);
            assert(text_ref@ == tv[w]);
            lemma_longest(tv, w);
            assert((n - i) * (lt + 1) + lt + 1 <= n * (lt + 1)) by (nonlinear_arith)
                requires
                    1 <= i <= n,
                    lt >= 0,
            ;
            assert((n - i) * (lt + 1) + lt + 1 == (n - k) * (lt + 1)) by (nonlinear_arith)
                requires
                    k == i - 1,
            ;
        }
        let inserted = paste_one(buffer, sel, text_ref, before);
        proof {
            lemma_paste_fold_len(buffer.lines_view(), sv, tv, before, k as int);
        }
        out.set(k, inserted);
        i = k;
    }
    proof {
        assert(out@ =~= paste_fold(l0, sv, tv, before, n as int).1);
    }
    let mut extra: Vec<Selection> = Vec::new();
    let mut j: usize = 1;
    while j < out.len()
        invariant
            1 <= j <= out.len(),
            out@.len() == n,
            n >= 1,
            seq![out@[0]] + extra@ == out@.take(j as int),
        decreases out.len() - j,
    {
        extra.push(out[j]);
        proof {
            assert(out@.take(j as int + 1) =~= out@.take(j as int).push(out@[j as int]));
        }
        j += 1;
    }
    proof {
        assert(out@.take(j as int) =~= out@);
    }
    let new_sels = Selections { primary_selection: out[0], extra_selections: extra };
    let _ = buffer.set_view_selections(view, new_sels);
    let path = buffer.path_str();
    emit_edit_events(queue, path);
}

proof fn lemma_newline_index_concat(t: Seq<char>, x: Seq<char>)
    ensures
        newline_index(t + x) == if newline_index(t) < t.len() {
            newline_index(t) as int
        } else {
            (t.len() + newline_index(x)) as int
        },
        newline_index(t) <= t.len(),
    decreases t.len(),
{
    if t.len() > 0 && t[0] != '\n' {
        assert((t + x).skip(1) =~= t.skip(1) + x);
        lemma_newline_index_concat(t.skip(1), x);
    } else if t.len() == 0 {
        assert(t + x =~= x);
    }
}

/// The lines of a text followed by a line feed are its lines and an empty one.
proof fn lemma_split_push_newline(t: Seq<char>)
    ensures
        split_lines(t.push('\n')) == split_lines(t).push(Seq::<char>::empty()),
    decreases t.len(),
{
    let s = t.push('\n');
    assert(s =~= t + seq!['\n']);
    lemma_newline_index_concat(t, seq!['\n']);
    let i = newline_index(t) as int;
    if i < t.len() {
        assert(s.take(i) =~= t.take(i));
        assert(s.skip(i + 1) =~= t.skip(i + 1).push('\n'));
        lemma_split_push_newline(t.skip(i + 1));
        assert(split_lines(s) =~= split_lines(t).push(Seq::<char>::empty()));
    } else {
        assert(newline_index(seq!['\n']) == 0);
        assert(s.take(i) =~= t);
        assert(s.skip(i + 1) =~= Seq::<char>::empty());
        assert(newline_index(Seq::<char>::empty()) == 0);
        assert(split_lines(Seq::<char>::empty()) =~= seq![Seq::<char>::empty()]);
        assert(split_lines(s) =~= split_lines(t).push(Seq::<char>::empty()));
    }
}

/// Inserting whole lines (a text ending with a line feed) at the start of
/// row `r` puts them before that row.
proof fn lemma_insert_whole_lines(lines: Seq<Seq<char>>, r: int, text: Seq<char>)
    requires
        0 <= r < lines.len(),
        lines.len() <= i32::MAX,
        ends_line(text),
    ensures
        lines_after_edit(lines, Range { start: Position { column: 0, row: r as i32 }, end: Position { column: 0, row: r as i32 } }, text)
            == lines.take(r) + split_lines(text.drop_last()) + lines.skip(r),
{
    let t = text.drop_last();
    assert(text =~= t.push('\n'));
    lemma_split_push_newline(t);
    lemma_join_split(t);
    let parts = split_lines(text);
    let p = split_lines(t);
    let at = Position { column: 0, row: r as i32 };
    assert(limit_position_in(lines, at) == at);
    let h1 = lines[r].take(0);
    let h2 = lines[r].skip(0);
    assert(h1 =~= Seq::<char>::empty());
    assert(h2 =~= lines[r]);
    let m = extend_ends(parts, h1, h2);
    assert forall|k: int| 0 <= k < parts.len() implies #[trigger] m[k] == p.push(lines[r])[k] by {
        lemma_extend_ends_index(parts, h1, h2, k);
        if k == 0 {
            assert(h1 + parts[0] =~= parts[0]);
        }
    }
    lemma_extend_ends_index(parts, h1, h2, 0);
    assert(m =~= p.push(lines[r]));
    assert(insert_lines(lines, r, 0, text) == lines.take(r) + m + lines.skip(r + 1));
    assert(lines.take(r) + m + lines.skip(r + 1) =~= lines.take(r) + p + lines.skip(r));
}

/// Pasting whole lines (a text ending with a line feed) leaves the rows up
/// to the selection's last one as they are and puts the pasted lines right
/// after them; with `before`, they go right before the selection's first
/// row.
pub proof fn law_paste_whole_lines(lines: Seq<Seq<char>>, sel: Selection, text: Seq<char>)
    requires
        lines.len() >= 1,
        join_lines(lines).len() < i32::MAX,
        ends_line(text),
        0 <= sel.start_spec().row,
        sel.end_spec().row < lines.len(),
    ensures
        paste_step(lines, sel, text, false).0 == lines.take(sel.end_spec().row + 1) + split_lines(text.drop_last())
            + lines.skip(sel.end_spec().row + 1),
        paste_step(lines, sel, text, true).0 == lines.take(sel.start_spec().row as int) + split_lines(text.drop_last())
            + lines.skip(sel.start_spec().row as int),
{
    let t = text.drop_last();
    let s = sel.start_spec().row as int;
    let r = sel.end_spec().row as int;
    assert(s <= r);
    let e = end_of(lines);
    crate::state::text_buffer::lemma_lines_bounded(lines);
    // Before: at the start of the first row, within the text.
    lemma_insert_whole_lines(lines, s, text);
    // After: at the start of the next row.
    if r + 1 < lines.len() {
        lemma_insert_whole_lines(lines, r + 1, text);
    } else {
        let n = lines.len() as int;
        let last = lines[n - 1];
        let at = Position { column: 0, row: n as i32 };
        assert(e.precedes_spec(at));
        // A line feed at the end first adds an empty last line.
        let nl = seq!['\n'];
        lemma_split_push_newline(Seq::<char>::empty());
        assert(Seq::<char>::empty().push('\n') =~= nl);
        let pe = split_lines(nl);
        assert(pe =~= seq![Seq::<char>::empty(), Seq::<char>::empty()]);
        assert(limit_position_in(lines, e) == e);
        let m = extend_ends(pe, last.take(last.len() as int), last.skip(last.len() as int));
        lemma_extend_ends_index(pe, last.take(last.len() as int), last.skip(last.len() as int), 0);
        lemma_extend_ends_index(pe, last.take(last.len() as int), last.skip(last.len() as int), 1);
        assert(last.take(last.len() as int) =~= last);
        assert(m =~= seq![last, Seq::<char>::empty()]);
        let l1 = lines_after_edit(lines, Range { start: e, end: e }, nl);
        assert(l1 == insert_lines(lines, n - 1, last.len() as int, nl));
        assert(l1 =~= lines.push(Seq::<char>::empty()));
        if t.len() == 0 {
            assert(newline_index(t) == 0);
            assert(t =~= Seq::<char>::empty());
            assert(split_lines(t) =~= seq![Seq::<char>::empty()]);
            assert(lines.take(r + 1) + split_lines(t) + lines.skip(r + 1) =~= l1);
        } else {
            lemma_join_split(t);
            let p = split_lines(t);
            assert(limit_position_in(l1, at) == at);
            let m2 = extend_ends(p, l1[n].take(0), l1[n].skip(0));
            assert forall|k: int| 0 <= k < p.len() implies #[trigger] m2[k] == p[k] by {
                lemma_extend_ends_index(p, l1[n].take(0), l1[n].skip(0), k);
                assert(l1[n].take(0) =~= Seq::<char>::empty());
                assert(l1[n].skip(0) =~= Seq::<char>::empty());
                assert(Seq::<char>::empty() + p[k] =~= p[k]);
                assert(p[k] + Seq::<char>::empty() =~= p[k]);
            }
            lemma_extend_ends_index(p, l1[n].take(0), l1[n].skip(0), 0);
            assert(m2 =~= p);
            assert(lines_after_edit(l1, Range { start: at, end: at }, t) == insert_lines(l1, n, 0, t));
            assert(insert_lines(l1, n, 0, t) =~= lines.take(r + 1) + p + lines.skip(r + 1));
        }
    }
}


/// A text without a line feed is a single line.
proof fn lemma_split_single_line(t: Seq<char>)
    requires
        forall|i: int| 0 <= i < t.len() ==> t[i] != '\n',
    ensures
        split_lines(t) == seq![t],
{
    crate::state::lines::lemma_newline_index(t);
    assert(newline_index(t) == t.len());
}

/// Inserting a text without a line feed at column `c` of row `r` puts it
/// into that line, between its first `c` characters and the rest.
proof fn lemma_insert_inline(lines: Seq<Seq<char>>, r: int, c: int, t: Seq<char>)
    requires
        0 <= r < lines.len() <= i32::MAX,
        0 <= c <= lines[r].len() <= i32::MAX,
        t.len() > 0,
        forall|i: int| 0 <= i < t.len() ==> t[i] != '\n',
    ensures
        lines_after_edit(lines, Range { start: Position { column: c as i32, row: r as i32 }, end: Position { column: c as i32, row: r as i32 } }, t)
            == lines.update(r, lines[r].take(c) + t + lines[r].skip(c)),
{
    lemma_split_single_line(t);
    let at = Position { column: c as i32, row: r as i32 };
    assert(limit_position_in(lines, at) == at);
    let m = extend_ends(seq![t], lines[r].take(c), lines[r].skip(c));
    assert(m =~= seq![lines[r].take(c) + t + lines[r].skip(c)]);
    assert(lines.take(r) + m + lines.skip(r + 1) =~= lines.update(r, lines[r].take(c) + t + lines[r].skip(c)));
}

/// Pasting a text without a line feed inserts it into one line: after the
/// selection's last character when the selection ends inside its line, the
/// pasted text then selected; with `before`, right before its first
/// character. The other lines stay as they are.
pub proof fn law_paste_inline(lines: Seq<Seq<char>>, sel: Selection, text: Seq<char>)
    requires
        lines.len() >= 1,
        join_lines(lines).len() + text.len() < i32::MAX,
        text.len() > 0,
        forall|i: int| 0 <= i < text.len() ==> text[i] != '\n',
        0 <= sel.start_spec().row,
        0 <= sel.start_spec().column <= lines[sel.start_spec().row as int].len(),
        sel.end_spec().row < lines.len(),
        0 <= sel.end_spec().column < lines[sel.end_spec().row as int].len(),
    ensures
        ({
            let (r, c) = (sel.end_spec().row as int, sel.end_spec().column as int);
            let after = paste_step(lines, sel, text, false);
            &&& after.0 == lines.update(r, lines[r].take(c + 1) + text + lines[r].skip(c + 1))
            &&& after.1.anchor == Position { column: (c + 1) as i32, row: r as i32 }
            &&& after.1.cursor == Position { column: (c + text.len()) as i32, row: r as i32 }
        }),
        ({
            let (r, c) = (sel.start_spec().row as int, sel.start_spec().column as int);
            paste_step(lines, sel, text, true).0 == lines.update(r, lines[r].take(c) + text + lines[r].skip(c))
        }),
{
    crate::state::text_buffer::lemma_lines_bounded(lines);
    lemma_split_single_line(text);
    let (r, c) = (sel.end_spec().row as int, sel.end_spec().column as int);
    assert(sel.start_spec().row <= r);
    let at = Position { column: (c + 1) as i32, row: r as i32 };
    assert(sel.end_spec() != end_of(lines));
    assert(moved_horizontally_in(lines, sel.end_spec(), 1) == Some(at));
    assert(paste_position(lines, sel, text, false) == at);
    lemma_insert_inline(lines, r, c + 1, text);
    lemma_insert_inline(lines, sel.start_spec().row as int, sel.start_spec().column as int, text);
}

} // verus!
