use vstd::prelude::*;

verus! {

/// The text of a sequence of lines: the lines joined by line feeds.
pub open spec fn join_lines(lines: Seq<Seq<char>>) -> Seq<char>
    decreases lines.len(),
{
    if lines.len() == 0 {
        Seq::empty()
    } else if lines.len() == 1 {
        lines[0]
    } else {
        join_lines(lines.drop_last()) + seq!['\n'] + lines.last()
    }
}

/// The text that precedes line `row` in `join_lines(lines)`, its line feed included.
pub open spec fn text_before_line(lines: Seq<Seq<char>>, row: int) -> Seq<char> {
    if row <= 0 {
        Seq::empty()
    } else {
        join_lines(lines.take(row)) + seq!['\n']
    }
}

/// The text that follows line `row` in `join_lines(lines)`, its line feed included.
pub open spec fn text_after_line(lines: Seq<Seq<char>>, row: int) -> Seq<char> {
    if row >= lines.len() - 1 {
        Seq::empty()
    } else {
        seq!['\n'] + join_lines(lines.skip(row + 1))
    }
}

/// Index in the joined text of the first character of line `row`.
pub open spec fn line_start(lines: Seq<Seq<char>>, row: int) -> int {
    text_before_line(lines, row).len() as int
}

/// Index in the joined text of column `column` of line `row`.
pub open spec fn text_offset(lines: Seq<Seq<char>>, row: int, column: int) -> int {
    line_start(lines, row) + column
}

/// Index of the first line feed of `s`, or its length when it has none.
pub open spec fn newline_index(s: Seq<char>) -> nat
    decreases s.len(),
{
    if s.len() == 0 {
        0
    } else if s[0] == '\n' {
        0
    } else {
        1 + newline_index(s.skip(1))
    }
}

/// The lines of `s`, split at each line feed.
pub open spec fn split_lines(s: Seq<char>) -> Seq<Seq<char>>
    decreases s.len(),
{
    let i = newline_index(s);
    if i < s.len() {
        seq![s.take(i as int)] + split_lines(s.skip(i as int + 1))
    } else {
        seq![s]
    }
}

pub proof fn lemma_join_concat(a: Seq<Seq<char>>, b: Seq<Seq<char>>)
    requires
        a.len() > 0,
        b.len() > 0,
    ensures
        join_lines(a + b) == join_lines(a) + seq!['\n'] + join_lines(b),
    decreases b.len(),
{
    if b.len() == 1 {
        assert((a + b).drop_last() =~= a);
        assert((a + b).last() == b[0]);
    } else {
        assert((a + b).drop_last() =~= a + b.drop_last());
        lemma_join_concat(a, b.drop_last());
        assert((a + b).last() == b.last());
        assert(join_lines(a + b) =~= join_lines(a) + seq!['\n'] + join_lines(b));
    }
}

pub proof fn lemma_join_single(line: Seq<char>)
    ensures
        join_lines(seq![line]) == line,
{
}

/// Splitting `lines` around row `row`.
pub proof fn lemma_join_around_line(lines: Seq<Seq<char>>, row: int)
    requires
        0 <= row < lines.len(),
    ensures
        join_lines(lines) == text_before_line(lines, row) + lines[row] + text_after_line(lines, row),
{
    lemma_join_splice(lines, row, row, seq![lines[row]]);
    assert(lines.take(row) + seq![lines[row]] + lines.skip(row + 1) =~= lines);
}

/// Replacing rows `first..=last` of `lines` by the lines `middle`.
pub proof fn lemma_join_splice(lines: Seq<Seq<char>>, first: int, last: int, middle: Seq<Seq<char>>)
    requires
        0 <= first <= last < lines.len(),
        middle.len() > 0,
    ensures
        join_lines(lines.take(first) + middle + lines.skip(last + 1)) == text_before_line(lines, first)
            + join_lines(middle) + text_after_line(lines, last),
{
    let a = lines.take(first);
    let c = lines.skip(last + 1);
    if first > 0 {
        lemma_join_concat(a, middle);
    }
    if last < lines.len() - 1 {
        if first > 0 {
            lemma_join_concat(a + middle, c);
            assert(join_lines(a + middle + c) =~= join_lines(a) + seq!['\n'] + join_lines(middle)
                + (seq!['\n'] + join_lines(c)));
        } else {
            assert(a + middle =~= middle);
            assert(a + middle + c =~= middle + c);
            lemma_join_concat(middle, c);
            assert(join_lines(middle + c) =~= join_lines(middle) + (seq!['\n'] + join_lines(c)));
        }
    } else {
        assert(c =~= Seq::<Seq<char>>::empty());
        assert(a + middle + c =~= a + middle);
        if first > 0 {
            assert(join_lines(a + middle) =~= join_lines(a) + seq!['\n'] + join_lines(middle));
        } else {
            assert(a + middle =~= middle);
        }
    }
}

/// Rows `first..=last` joined, seen from the text of all lines.
pub proof fn lemma_join_block(lines: Seq<Seq<char>>, first: int, last: int)
    requires
        0 <= first <= last < lines.len(),
    ensures
        join_lines(lines) == text_before_line(lines, first) + join_lines(lines.subrange(first, last + 1))
            + text_after_line(lines, last),
        line_start(lines, last) == line_start(lines, first) + join_lines(lines.subrange(first, last + 1)).len()
            - lines[last].len(),
{
    let block = lines.subrange(first, last + 1);
    lemma_join_splice(lines, first, last, block);
    assert(lines.take(first) + block + lines.skip(last + 1) =~= lines);
    lemma_join_around_line(lines, last);
    assert(block[last - first] == lines[last]);
    let j = join_lines(lines);
    assert(j.len() == text_before_line(lines, first).len() + join_lines(block).len()
        + text_after_line(lines, last).len());
    assert(j.len() == text_before_line(lines, last).len() + lines[last].len()
        + text_after_line(lines, last).len());
}

/// The character at a column of a line, seen in the joined text.
pub proof fn lemma_text_index(lines: Seq<Seq<char>>, row: int, column: int)
    requires
        0 <= row < lines.len(),
        0 <= column < lines[row].len(),
    ensures
        0 <= text_offset(lines, row, column) < join_lines(lines).len(),
        join_lines(lines)[text_offset(lines, row, column)] == lines[row][column],
{
    lemma_join_around_line(lines, row);
}

/// The length of the joined text.
pub proof fn lemma_text_len(lines: Seq<Seq<char>>)
    requires
        lines.len() > 0,
    ensures
        join_lines(lines).len() == line_start(lines, lines.len() - 1) + lines.last().len(),
{
    lemma_join_around_line(lines, lines.len() - 1);
}

/// Line starts grow with the row.
pub proof fn lemma_line_start_next(lines: Seq<Seq<char>>, row: int)
    requires
        0 <= row < lines.len() - 1,
    ensures
        line_start(lines, row + 1) == line_start(lines, row) + lines[row].len() + 1,
{
    lemma_join_around_line(lines, row);
    lemma_join_around_line(lines, row + 1);
    if row > 0 {
        assert(lines.take(row + 1).drop_last() =~= lines.take(row));
        assert(lines.take(row + 1).last() == lines[row]);
    } else {
        assert(lines.take(1) =~= seq![lines[0]]);
    }
}

/// Prepending to the first line or appending to the last line of a
/// sequence of lines prepends or appends to its text.
pub proof fn lemma_join_extend_ends(parts: Seq<Seq<char>>, head: Seq<char>, tail: Seq<char>)
    requires
        parts.len() > 0,
    ensures
        join_lines(extend_ends(parts, head, tail)) == head + join_lines(parts) + tail,
{
    let n = parts.len();
    let p2 = extend_ends(parts, head, tail);
    if n == 1 {
        assert(p2[0] =~= head + parts[0] + tail);
    } else if n == 2 {
        assert(parts =~= seq![parts[0]] + seq![parts[1]]);
        assert(p2 =~= seq![head + parts[0]] + seq![parts[1] + tail]);
        lemma_join_concat(seq![parts[0]], seq![parts[1]]);
        lemma_join_concat(seq![head + parts[0]], seq![parts[1] + tail]);
        assert(join_lines(p2) =~= head + join_lines(parts) + tail);
    } else {
        let mid = parts.subrange(1, n - 1);
        assert(parts =~= seq![parts[0]] + mid + seq![parts[n - 1]]);
        assert(p2 =~= seq![head + parts[0]] + mid + seq![parts[n - 1] + tail]);
        lemma_join_concat(seq![parts[0]], mid);
        lemma_join_concat(seq![parts[0]] + mid, seq![parts[n - 1]]);
        lemma_join_concat(seq![head + parts[0]], mid);
        lemma_join_concat(seq![head + parts[0]] + mid, seq![parts[n - 1] + tail]);
        assert(join_lines(p2) =~= head + join_lines(parts) + tail);
    }
}

/// `parts` with `head` prepended to its first line and `tail` appended to its last line.
pub open spec fn extend_ends(parts: Seq<Seq<char>>, head: Seq<char>, tail: Seq<char>) -> Seq<Seq<char>> {
    let p1 = parts.update(0, head + parts[0]);
    p1.update(parts.len() - 1, p1[parts.len() - 1] + tail)
}

/// What `newline_index` finds.
pub proof fn lemma_newline_index(s: Seq<char>)
    ensures
        newline_index(s) <= s.len(),
        forall|j: int| 0 <= j < newline_index(s) ==> s[j] != '\n',
        newline_index(s) < s.len() ==> s[newline_index(s) as int] == '\n',
    decreases s.len(),
{
    if s.len() > 0 && s[0] != '\n' {
        lemma_newline_index(s.skip(1));
        assert forall|j: int| 0 <= j < newline_index(s) implies s[j] != '\n' by {
            if j > 0 {
                assert(s[j] == s.skip(1)[j - 1]);
            }
        }
    }
}

/// `newline_index` is the first line feed.
pub proof fn lemma_newline_index_is(s: Seq<char>, k: int)
    requires
        0 <= k <= s.len(),
        forall|j: int| 0 <= j < k ==> s[j] != '\n',
        k < s.len() ==> s[k] == '\n',
    ensures
        newline_index(s) == k,
{
    lemma_newline_index(s);
    if newline_index(s) < k {
        assert(s[newline_index(s) as int] == '\n');
    }
    if newline_index(s) > k {
        assert(s[k] != '\n');
    }
}

/// Splitting then joining gives back the text, and no line holds a line feed.
pub proof fn lemma_join_split(s: Seq<char>)
    ensures
        split_lines(s).len() > 0,
        join_lines(split_lines(s)) == s,
        forall|i: int, j: int|
            0 <= i < split_lines(s).len() && 0 <= j < split_lines(s)[i].len() ==> split_lines(s)[i][j]
                != '\n',
    decreases s.len(),
{
    lemma_newline_index(s);
    let i = newline_index(s) as int;
    if i < s.len() {
        let rest = s.skip(i + 1);
        lemma_join_split(rest);
        lemma_join_concat(seq![s.take(i)], split_lines(rest));
        assert(join_lines(split_lines(s)) =~= s);
        let parts = split_lines(s);
        assert forall|a: int, b: int| 0 <= a < parts.len() && 0 <= b < parts[a].len() implies parts[a][b]
            != '\n' by {
            if a > 0 {
                assert(parts[a] == split_lines(rest)[a - 1]);
            }
        }
    }
}

/// Text without line feeds is a single line.
pub proof fn lemma_split_no_newline(s: Seq<char>)
    requires
        forall|j: int| 0 <= j < s.len() ==> s[j] != '\n',
    ensures
        split_lines(s) == seq![s],
{
    lemma_newline_index_is(s, s.len() as int);
}

/// Splitting at a line feed.
pub proof fn lemma_split_at_newline(s: Seq<char>, k: int)
    requires
        0 <= k < s.len(),
        forall|j: int| 0 <= j < k ==> s[j] != '\n',
        s[k] == '\n',
    ensures
        split_lines(s) == seq![s.take(k)] + split_lines(s.skip(k + 1)),
{
    lemma_newline_index_is(s, k);
}


/// The lines of `extend_ends` one by one.
pub proof fn lemma_extend_ends_index(parts: Seq<Seq<char>>, head: Seq<char>, tail: Seq<char>, k: int)
    requires
        parts.len() > 0,
        0 <= k < parts.len(),
    ensures
        extend_ends(parts, head, tail).len() == parts.len(),
        extend_ends(parts, head, tail)[k] == (if k == 0 {
            head
        } else {
            Seq::<char>::empty()
        }) + parts[k] + (if k == parts.len() - 1 {
            tail
        } else {
            Seq::<char>::empty()
        }),
{
    let e = extend_ends(parts, head, tail);
    assert(e[k] =~= (if k == 0 {
        head
    } else {
        Seq::<char>::empty()
    }) + parts[k] + (if k == parts.len() - 1 {
        tail
    } else {
        Seq::<char>::empty()
    }));
}

/// The lines after inserting `s` at column `column` of line `row`.
pub open spec fn insert_lines(lines: Seq<Seq<char>>, row: int, column: int, s: Seq<char>) -> Seq<Seq<char>> {
    lines.take(row) + extend_ends(split_lines(s), lines[row].take(column), lines[row].skip(column))
        + lines.skip(row + 1)
}

/// Inserting into the lines inserts into their text.
pub proof fn lemma_insert_lines(lines: Seq<Seq<char>>, row: int, column: int, s: Seq<char>)
    requires
        0 <= row < lines.len(),
        0 <= column <= lines[row].len(),
    ensures
        join_lines(insert_lines(lines, row, column, s)) == join_lines(lines).take(text_offset(lines, row, column))
            + s + join_lines(lines).skip(text_offset(lines, row, column)),
        insert_lines(lines, row, column, s).len() == lines.len() + split_lines(s).len() - 1,
        join_lines(insert_lines(lines, row, column, s)).len() == join_lines(lines).len() + s.len(),
{
    let parts = split_lines(s);
    let h1 = lines[row].take(column);
    let h2 = lines[row].skip(column);
    lemma_join_split(s);
    lemma_join_extend_ends(parts, h1, h2);
    let m = extend_ends(parts, h1, h2);
    lemma_extend_ends_index(parts, h1, h2, 0);
    lemma_join_splice(lines, row, row, m);
    lemma_join_around_line(lines, row);
    assert(lines[row] =~= h1 + h2);
    let pre = text_before_line(lines, row);
    let post = text_after_line(lines, row);
    let j = join_lines(lines);
    assert(j =~= pre + h1 + h2 + post);
    assert(j.take(text_offset(lines, row, column)) =~= pre + h1);
    assert(j.skip(text_offset(lines, row, column)) =~= h2 + post);
    assert(join_lines(insert_lines(lines, row, column, s)) =~= pre + h1 + s + h2 + post);
}


/// The lines after deleting from (`start_row`, `start_column`) to
/// (`end_row`, `end_column`), the end excluded.
pub open spec fn delete_lines(
    lines: Seq<Seq<char>>,
    start_row: int,
    start_column: int,
    end_row: int,
    end_column: int,
) -> Seq<Seq<char>> {
    lines.take(start_row) + seq![lines[start_row].take(start_column) + lines[end_row].skip(end_column)]
        + lines.skip(end_row + 1)
}

/// Deleting from the lines deletes from their text.
#[verifier::spinoff_prover]
#[verifier::rlimit(40)]
pub proof fn lemma_delete_lines(lines: Seq<Seq<char>>, sr: int, sc: int, er: int, ec: int)
    requires
        0 <= sr <= er < lines.len(),
        0 <= sc <= lines[sr].len(),
        0 <= ec <= lines[er].len(),
        sr == er ==> sc <= ec,
    ensures
        text_offset(lines, sr, sc) <= text_offset(lines, er, ec) <= join_lines(lines).len(),
        join_lines(delete_lines(lines, sr, sc, er, ec)) == join_lines(lines).take(text_offset(lines, sr, sc))
            + join_lines(lines).skip(text_offset(lines, er, ec)),
        delete_lines(lines, sr, sc, er, ec).len() == lines.len() - (er - sr),
{
    let x = lines[sr].take(sc) + lines[er].skip(ec);
    lemma_join_splice(lines, sr, er, seq![x]);
    lemma_join_block(lines, sr, er);
    let b = lines.subrange(sr, er + 1);
    lemma_join_around_line(b, 0);
    lemma_join_around_line(b, b.len() - 1);
    assert(b[0] == lines[sr]);
    assert(b[b.len() - 1] == lines[er]);
    let jb = join_lines(b);
    let pre = text_before_line(lines, sr);
    let post = text_after_line(lines, er);
    let j = join_lines(lines);
    assert(j == pre + jb + post);
    let tb = text_before_line(b, b.len() - 1);
    assert(jb == tb + lines[er]);
    assert(jb == lines[sr] + text_after_line(b, 0));
    let o1 = text_offset(lines, sr, sc);
    let o2 = text_offset(lines, er, ec);
    assert(o1 == pre.len() + sc);
    assert(o2 == pre.len() + tb.len() + ec);
    if sr == er {
        assert(tb.len() == 0);
    }
    assert(j.take(o1) =~= pre + lines[sr].take(sc)) by {
        assert(j.take(o1) =~= (pre + jb).take(o1));
        assert(jb.take(sc) =~= lines[sr].take(sc));
    }
    assert(j.skip(o2) =~= lines[er].skip(ec) + post) by {
        assert(j =~= pre + tb + lines[er] + post);
    }
    assert(join_lines(delete_lines(lines, sr, sc, er, ec)) =~= pre + x + post);
}


/// Where the lines of `middle` start once it replaces rows `first..=last`.
pub proof fn lemma_line_start_splice(
    lines: Seq<Seq<char>>,
    first: int,
    last: int,
    middle: Seq<Seq<char>>,
    k: int,
)
    requires
        0 <= first <= last < lines.len(),
        0 <= k < middle.len(),
    ensures
        line_start(lines.take(first) + middle + lines.skip(last + 1), first + k) == line_start(lines, first)
            + line_start(middle, k),
{
    let a = lines.take(first);
    let l2 = a + middle + lines.skip(last + 1);
    assert(l2.take(first + k) =~= a + middle.take(k));
    if k == 0 {
        assert(a + middle.take(0) =~= a);
    } else if first > 0 {
        lemma_join_concat(a, middle.take(k));
    } else {
        assert(a + middle.take(k) =~= middle.take(k));
    }
}

/// The line at `row` and the line feed after it, seen in the text.
pub proof fn lemma_line_in_text(lines: Seq<Seq<char>>, row: int)
    requires
        0 <= row < lines.len(),
    ensures
        line_start(lines, row) + lines[row].len() <= join_lines(lines).len(),
        join_lines(lines).subrange(line_start(lines, row), line_start(lines, row) + lines[row].len())
            == lines[row],
        row < lines.len() - 1 ==> line_start(lines, row + 1) == line_start(lines, row) + lines[row].len() + 1
            && join_lines(lines)[line_start(lines, row) + lines[row].len()] == '\n',
{
    lemma_join_around_line(lines, row);
    let j = join_lines(lines);
    let pre = text_before_line(lines, row);
    assert(j.subrange(pre.len() as int, (pre.len() + lines[row].len()) as int) =~= lines[row]);
    if row < lines.len() - 1 {
        lemma_line_start_next(lines, row);
        assert(j[(pre.len() + lines[row].len()) as int] == text_after_line(lines, row)[0]);
    }
}


/// Bytes of the UTF-8 encoded text before line `row`: each line before it
/// and its terminator.
pub open spec fn bytes_before_row(lines: Seq<Seq<char>>, row: int) -> int
    decreases row,
{
    if row <= 0 {
        0
    } else {
        bytes_before_row(lines, row - 1) + crate::text::utf8_len(lines[row - 1]) + 1
    }
}

/// Lines further down start at later bytes.
pub proof fn lemma_bytes_before_row_mono(lines: Seq<Seq<char>>, i: int, j: int)
    requires
        0 <= i <= j <= lines.len(),
    ensures
        0 <= bytes_before_row(lines, i) <= bytes_before_row(lines, j),
    decreases j,
{
    if i < j {
        lemma_bytes_before_row_mono(lines, i, j - 1);
        crate::text::lemma_utf8_len_nonneg(lines[j - 1]);
    } else if i > 0 {
        lemma_bytes_before_row_mono(lines, i - 1, j - 1);
        crate::text::lemma_utf8_len_nonneg(lines[j - 1]);
    }
}

/// No line holds a line feed: line terminators are not part of the lines.
pub open spec fn no_line_feeds(lines: Seq<Seq<char>>) -> bool {
    forall|r: int, i: int| 0 <= r < lines.len() && 0 <= i < lines[r].len() ==> #[trigger] lines[r][i] != '\n'
}

/// Inserting text keeps the lines free of line feeds.
pub proof fn lemma_insert_lines_no_line_feeds(lines: Seq<Seq<char>>, row: int, column: int, s: Seq<char>)
    requires
        no_line_feeds(lines),
        0 <= row < lines.len(),
        0 <= column <= lines[row].len(),
    ensures
        no_line_feeds(insert_lines(lines, row, column, s)),
{
    let parts = split_lines(s);
    lemma_join_split(s);
    let h1 = lines[row].take(column);
    let h2 = lines[row].skip(column);
    let m = extend_ends(parts, h1, h2);
    let l = insert_lines(lines, row, column, s);
    assert forall|r: int, i: int| 0 <= r < l.len() && 0 <= i < l[r].len() implies #[trigger] l[r][i] != '\n' by {
        if r < row {
            assert(l[r] == lines[r]);
        } else if r < row + m.len() {
            let k = r - row;
            lemma_extend_ends_index(parts, h1, h2, k);
            assert(l[r] == m[k]);
            let pre = if k == 0 { h1 } else { Seq::<char>::empty() };
            let post = if k == parts.len() - 1 { h2 } else { Seq::<char>::empty() };
            assert(m[k] == pre + parts[k] + post);
            if i < pre.len() {
                assert(m[k][i] == lines[row][i]);
            } else if i < pre.len() + parts[k].len() {
                assert(m[k][i] == parts[k][i - pre.len()]);
            } else {
                assert(m[k][i] == lines[row][column + (i - pre.len() - parts[k].len())]);
            }
        } else {
            lemma_extend_ends_index(parts, h1, h2, 0);
            assert(l[r] == lines[r - m.len() + 1]);
        }
    }
}

/// Deleting text keeps the lines free of line feeds.
pub proof fn lemma_delete_lines_no_line_feeds(lines: Seq<Seq<char>>, sr: int, sc: int, er: int, ec: int)
    requires
        no_line_feeds(lines),
        0 <= sr <= er < lines.len(),
        0 <= sc <= lines[sr].len(),
        0 <= ec <= lines[er].len(),
    ensures
        no_line_feeds(delete_lines(lines, sr, sc, er, ec)),
{
    let l = delete_lines(lines, sr, sc, er, ec);
    let x = lines[sr].take(sc) + lines[er].skip(ec);
    assert forall|r: int, i: int| 0 <= r < l.len() && 0 <= i < l[r].len() implies #[trigger] l[r][i] != '\n' by {
        if r < sr {
            assert(l[r] == lines[r]);
        } else if r == sr {
            assert(l[r] == x);
            if i < sc {
                assert(x[i] == lines[sr][i]);
            } else {
                assert(x[i] == lines[er][ec + (i - sc)]);
            }
        } else {
            assert(l[r] == lines[r + (er - sr)]);
        }
    }
}

/// Lines free of line feeds are what splitting their text gives back.
pub proof fn lemma_split_join(lines: Seq<Seq<char>>)
    requires
        lines.len() >= 1,
        no_line_feeds(lines),
    ensures
        split_lines(join_lines(lines)) == lines,
    decreases lines.len(),
{
    let l0 = lines[0];
    assert forall|j: int| 0 <= j < l0.len() implies l0[j] != '\n' by {
        assert(lines[0][j] != '\n');
    }
    if lines.len() == 1 {
        assert(join_lines(lines) == l0);
        lemma_split_no_newline(l0);
    } else {
        let rest = lines.drop_first();
        assert forall|r: int, i: int| 0 <= r < rest.len() && 0 <= i < rest[r].len() implies #[trigger] rest[r][i]
            != '\n' by {
            assert(rest[r] == lines[r + 1]);
        }
        lemma_split_join(rest);
        assert(lines =~= seq![l0] + rest);
        lemma_join_concat(seq![l0], rest);
        assert(join_lines(seq![l0]) == l0);
        let t = join_lines(lines);
        assert(t == l0 + seq!['\n'] + join_lines(rest));
        lemma_newline_index_is(t, l0.len() as int);
        assert(t.take(l0.len() as int) =~= l0);
        assert(t.skip(l0.len() as int + 1) =~= join_lines(rest));
    }
}

/// Lines free of line feeds with the same text are the same lines.
pub proof fn lemma_join_injective(a: Seq<Seq<char>>, b: Seq<Seq<char>>)
    requires
        a.len() >= 1,
        b.len() >= 1,
        no_line_feeds(a),
        no_line_feeds(b),
        join_lines(a) == join_lines(b),
    ensures
        a == b,
{
    lemma_split_join(a);
    lemma_split_join(b);
}

} // verus!
