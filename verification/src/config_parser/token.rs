//! The tokens of the configuration language, read from the start of the text.

use vstd::prelude::*;

use crate::text::{chars_of, split_at_char, starts_with};

verus! {

/// A token: its kind and its text.
#[derive(Debug, Clone, Copy)]
pub struct Token<'a> {
    pub kind: TokenKind,
    pub slice: &'a str,
}

/// The kinds of tokens.
#[derive(Debug, Clone, Copy, PartialEq, Eq, Structural)]
pub enum TokenKind {
    Identifier,
    Delimiter,
    EntryName,
    Escape,
    Verbatim,
    Invalid,
    Eof,
}

/// Space, tab and line feed.
pub open spec fn is_whitespace_spec(c: char) -> bool {
    c == ' ' || c == '\t' || c == '\n'
}

/// ASCII letters and digits, `_` and `-`.
pub open spec fn is_identifier_spec(c: char) -> bool {
    ('a' <= c <= 'z') || ('A' <= c <= 'Z') || ('0' <= c <= '9') || c == '_' || c == '-'
}

pub open spec fn ws_pred() -> spec_fn(char) -> bool {
    |c: char| is_whitespace_spec(c)
}

pub open spec fn not_ws_pred() -> spec_fn(char) -> bool {
    |c: char| !is_whitespace_spec(c)
}

pub open spec fn ident_pred() -> spec_fn(char) -> bool {
    |c: char| is_identifier_spec(c)
}

pub open spec fn not_newline_pred() -> spec_fn(char) -> bool {
    |c: char| c != '\n'
}

pub open spec fn string_text_pred() -> spec_fn(char) -> bool {
    |c: char| c != '$' && c != '"'
}

/// Length of the longest prefix of `s` whose characters all satisfy `p`.
pub open spec fn prefix_len(s: Seq<char>, p: spec_fn(char) -> bool) -> int
    decreases s.len(),
{
    if s.len() == 0 || !p(s[0]) {
        0
    } else {
        1 + prefix_len(s.skip(1), p)
    }
}

/// `prefix_len` is the index of the first character that fails `p`.
pub proof fn lemma_prefix_len(s: Seq<char>, p: spec_fn(char) -> bool, k: int)
    requires
        0 <= k <= s.len(),
        forall|j: int| 0 <= j < k ==> #[trigger] p(s[j]),
        k < s.len() ==> !p(s[k]),
    ensures
        prefix_len(s, p) == k,
    decreases k,
{
    if k > 0 {
        assert(p(s[0]));
        let t = s.skip(1);
        assert forall|j: int| 0 <= j < k - 1 implies #[trigger] p(t[j]) by {
            assert(t[j] == s[j + 1]);
        }
        if k - 1 < t.len() {
            assert(t[k - 1] == s[k]);
        }
        lemma_prefix_len(t, p, k - 1);
    }
}

/// `prefix_len` counts characters of `s`.
pub proof fn lemma_prefix_len_bounds(s: Seq<char>, p: spec_fn(char) -> bool)
    ensures
        0 <= prefix_len(s, p) <= s.len(),
    decreases s.len(),
{
    if s.len() > 0 {
        lemma_prefix_len_bounds(s.skip(1), p);
    }
}

/// The delimiter at the start of `j` (`{`, `}`, `$[` or `]`): its length, or 0.
pub open spec fn delimiter_len(j: Seq<char>) -> int {
    if j.len() >= 1 && (j[0] == '{' || j[0] == '}') {
        1
    } else if j.len() >= 2 && j[0] == '$' && j[1] == '[' {
        2
    } else if j.len() >= 1 && j[0] == ']' {
        1
    } else {
        0
    }
}

/// Length of the comment at the start of `j` (`#` up to the line feed), if any.
pub open spec fn comment_len(j: Seq<char>) -> Option<int> {
    if j.len() >= 1 && j[0] == '#' {
        Some(1 + prefix_len(j.skip(1), not_newline_pred()))
    } else {
        None
    }
}

/// The next token of `i` after whitespace and comments: its kind and the
/// offsets of its text in `i`; the rest of the input follows it.
pub open spec fn next_token_spec(i: Seq<char>) -> (TokenKind, int, int)
    decreases i.len(),
{
    let w = prefix_len(i, ws_pred());
    let j = i.skip(w);
    if w >= i.len() {
        (TokenKind::Eof, i.len() as int, i.len() as int)
    } else if comment_len(j).is_some() {
        let c = comment_len(j)->Some_0;
        proof {
            lemma_prefix_len_bounds(i, ws_pred());
            lemma_prefix_len_bounds(j.skip(1), not_newline_pred());
        }
        let r = next_token_spec(i.skip(w + c));
        (r.0, r.1 + w + c, r.2 + w + c)
    } else if delimiter_len(j) > 0 {
        (TokenKind::Delimiter, w, w + delimiter_len(j))
    } else if is_identifier_spec(j[0]) {
        (TokenKind::Identifier, w, w + prefix_len(j, ident_pred()))
    } else {
        (TokenKind::Invalid, w, w + prefix_len(j, not_ws_pred()))
    }
}

/// Whether `c` is a space, a tab or a line feed.
pub fn is_whitespace(ch: char) -> (r: bool)
    ensures
        r == is_whitespace_spec(ch),
{
    ch == ' ' || ch == '\t' || ch == '\n'
}

fn is_identifier(ch: char) -> (r: bool)
    ensures
        r == is_identifier_spec(ch),
{
    ('a' <= ch && ch <= 'z') || ('A' <= ch && ch <= 'Z') || ('0' <= ch && ch <= '9') || ch == '_' || ch
        == '-'
}

/// Splits `i` after its longest prefix of characters for which `pred`
/// holds: the rest, then the prefix.
fn take_while<'a, P: Fn(char) -> bool>(pred: &P, i: &'a str) -> (r: (&'a str, &'a str))
    requires
        forall|c: char| #[trigger] pred.requires((c,)),
    ensures
        ({
            let k = r.1@.len() as int;
            &&& k <= i@.len()
            &&& r.1@ == i@.take(k)
            &&& r.0@ == i@.skip(k)
            &&& forall|j: int| 0 <= j < k ==> #[trigger] pred.ensures((i@[j],), true)
            &&& k < i@.len() ==> pred.ensures((i@[k],), false)
        }),
{
    let chars = chars_of(i);
    let mut k: usize = 0;
    let mut done = false;
    while !done && k < chars.len()
        invariant
            chars@ == i@,
            k <= chars.len(),
            forall|c: char| #[trigger] pred.requires((c,)),
            forall|j: int| 0 <= j < k ==> #[trigger] pred.ensures((i@[j],), true),
            done ==> k < chars.len() && pred.ensures((i@[k as int],), false),
        decreases chars.len() - k + (if done { 0int } else { 1int }),
    {
        if pred(chars[k]) {
            k += 1;
        } else {
            done = true;
        }
    }
    let (parsed, rest) = split_at_char(i, k);
    (rest, parsed)
}

/// Splits `i` after its longest prefix of characters for which `pred`
/// holds, which may be empty: the rest, then the prefix.
pub fn take_while0<'a, P: Fn(char) -> bool>(pred: &P, i: &'a str) -> (r: (&'a str, &'a str))
    requires
        forall|c: char| #[trigger] pred.requires((c,)),
    ensures
        ({
            let k = r.1@.len() as int;
            &&& k <= i@.len()
            &&& r.1@ == i@.take(k)
            &&& r.0@ == i@.skip(k)
            &&& forall|j: int| 0 <= j < k ==> #[trigger] pred.ensures((i@[j],), true)
            &&& k < i@.len() ==> pred.ensures((i@[k],), false)
        }),
{
    take_while(pred, i)
}

/// Splits `i` after its longest prefix of characters for which `pred`
/// holds: the rest, then the prefix; `None` when the prefix is empty.
pub fn take_while1<'a, P: Fn(char) -> bool>(pred: &P, i: &'a str) -> (r: Option<(&'a str, &'a str)>)
    requires
        forall|c: char| #[trigger] pred.requires((c,)),
    ensures
        r matches Some((rest, parsed)) ==> ({
            let k = parsed@.len() as int;
            &&& 0 < k <= i@.len()
            &&& parsed@ == i@.take(k)
            &&& rest@ == i@.skip(k)
            &&& forall|j: int| 0 <= j < k ==> #[trigger] pred.ensures((i@[j],), true)
            &&& k < i@.len() ==> pred.ensures((i@[k],), false)
        }),
        r.is_none() ==> i@.len() == 0 || pred.ensures((i@[0],), false),
{
    let (rest, parsed) = take_while(pred, i);
    if parsed.is_empty() {
        None
    } else {
        Some((rest, parsed))
    }
}

/// Splits off `expected` from the start of `i`: the rest, then the tag;
/// `None` when `i` does not start with it.
pub fn tag<'a>(expected: &str, i: &'a str) -> (r: Option<(&'a str, &'a str)>)
    ensures
        (expected@.len() <= i@.len() && i@.take(expected@.len() as int) == expected@) <==> r.is_some(),
        r matches Some((rest, parsed)) ==> parsed@ == expected@ && rest@ == i@.skip(expected@.len() as int),
{
    if starts_with(i, expected) {
        let n = chars_of(expected).len();
        let (parsed, rest) = split_at_char(i, n);
        Some((rest, parsed))
    } else {
        None
    }
}

/// The comment at the start of `i`, from `#` up to the line feed: the rest,
/// then the comment.
fn comment<'a>(i: &'a str) -> (r: Option<(&'a str, &'a str)>)
    ensures
        r.is_some() == comment_len(i@).is_some(),
        r.is_some() ==> ({
            let n = comment_len(i@)->Some_0;
            &&& 1 <= n <= i@.len()
            &&& r->Some_0.1@ == i@.take(n)
            &&& r->Some_0.0@ == i@.skip(n)
        }),
{
    proof {
        reveal_strlit("#");
        if i@.len() >= 1 && i@[0] == '#' {
            assert(i@.take(1) =~= "#"@);
        }
    }
    let (j, _) = match tag("#", i) {
        Some(x) => x,
        None => return None,
    };
    let not_newline = |ch: char| -> (b: bool)
        ensures
            b == (ch != '\n'),
        { ch != '\n' };
    let (k, body) = take_while0(&not_newline, j);
    let len = chars_of(i).len() - chars_of(k).len();
    proof {
        assert("#"@ =~= seq!['#']);
        assert(i@.take(1)[0] == i@[0]);
        assert(i@[0] == '#');
        let t = i@.skip(1);
        assert(j@ == t);
        let b = body@.len() as int;
        assert(k@.len() == t.len() - b);
        assert(len == 1 + b);
        assert forall|x: int| 0 <= x < b implies #[trigger] not_newline_pred()(t[x]) by {
            assert(not_newline.ensures((t[x],), true));
        }
        if b < t.len() {
            assert(not_newline.ensures((t[b],), false));
        }
        lemma_prefix_len(t, not_newline_pred(), b);
        assert(i@.skip(len as int) =~= t.skip(body@.len() as int));
    }
    let (c, _) = split_at_char(i, len);
    Some((k, c))
}

/// The delimiter at the start of `j` (see `delimiter_len`): the rest, then
/// the delimiter.
fn delimiter<'a>(j: &'a str) -> (r: Option<(&'a str, &'a str)>)
    ensures
        r.is_some() == (delimiter_len(j@) > 0),
        r.is_some() ==> ({
            let n = delimiter_len(j@);
            &&& r->Some_0.1@ == j@.take(n)
            &&& r->Some_0.0@ == j@.skip(n)
        }),
{
    proof {
        reveal_strlit("{");
        reveal_strlit("}");
        reveal_strlit("$[");
        reveal_strlit("]");
        assert("{"@ =~= seq!['{']);
        assert("}"@ =~= seq!['}']);
        assert("$["@ =~= seq!['$', '[']);
        assert("]"@ =~= seq![']']);
    }
    let r = tag("{", j);
    if r.is_some() {
        proof {
            assert(j@.take(1)[0] == j@[0]);
        }
        return r;
    }
    proof {
        if j@.len() >= 1 && j@[0] == '{' {
            assert(j@.take(1) =~= "{"@);
        }
    }
    let r = tag("}", j);
    if r.is_some() {
        proof {
            assert(j@.take(1)[0] == j@[0]);
        }
        return r;
    }
    proof {
        if j@.len() >= 1 && j@[0] == '}' {
            assert(j@.take(1) =~= "}"@);
        }
    }
    let r = tag("$[", j);
    if r.is_some() {
        proof {
            assert(j@.take(2)[0] == j@[0]);
            assert(j@.take(2)[1] == j@[1]);
        }
        return r;
    }
    proof {
        if j@.len() >= 2 && j@[0] == '$' && j@[1] == '[' {
            assert(j@.take(2) =~= "$["@);
        }
    }
    let r = tag("]", j);
    proof {
        if r.is_some() {
            assert(j@.take(1)[0] == j@[0]);
        }
        if j@.len() >= 1 && j@[0] == ']' {
            assert(j@.take(1) =~= "]"@);
        }
    }
    r
}

/// Shifts the offsets of a token by `n`.
pub open spec fn shifted(t: (TokenKind, int, int), n: int) -> (TokenKind, int, int) {
    (t.0, t.1 + n, t.2 + n)
}

/// The next token of `i`, after whitespace and comments (see
/// `next_token_spec`), and the rest of the input.
pub fn next_token<'a>(i: &'a str) -> (r: (&'a str, Token<'a>))
    ensures
        ({
            let t = next_token_spec(i@);
            &&& 0 <= t.1 <= t.2 <= i@.len()
            &&& r.1.kind == t.0
            &&& r.1.slice@ == i@.subrange(t.1, t.2)
            &&& r.0@ == i@.skip(t.2)
        }),
{
    let ghost orig = i@;
    let ghost mut consumed: int = 0;
    let mut cur = i;
    let ws = |ch: char| -> (b: bool)
        ensures
            b == is_whitespace_spec(ch),
        { is_whitespace(ch) };
    let ident = |ch: char| -> (b: bool)
        ensures
            b == is_identifier_spec(ch),
        { is_identifier(ch) };
    let not_ws = |ch: char| -> (b: bool)
        ensures
            b == !is_whitespace_spec(ch),
        { !is_whitespace(ch) };
    proof {
        assert(orig.skip(0) =~= orig);
    }
    loop
        invariant
            orig == i@,
            0 <= consumed <= orig.len(),
            cur@ == orig.skip(consumed),
            next_token_spec(orig) == shifted(next_token_spec(cur@), consumed),
            forall|ch: char| #[trigger] ws.requires((ch,)),
            forall|ch: char, b: bool| ws.ensures((ch,), b) ==> b == is_whitespace_spec(ch),
            forall|ch: char| #[trigger] ident.requires((ch,)),
            forall|ch: char, b: bool| ident.ensures((ch,), b) ==> b == is_identifier_spec(ch),
            forall|ch: char| #[trigger] not_ws.requires((ch,)),
            forall|ch: char, b: bool| not_ws.ensures((ch,), b) ==> b == !is_whitespace_spec(ch),
        decreases cur@.len(),
    {
        let (j, skipped) = take_while0(&ws, cur);
        let ghost w = skipped@.len() as int;
        proof {
            assert forall|x: int| 0 <= x < w implies #[trigger] ws_pred()(cur@[x]) by {
                assert(ws.ensures((cur@[x],), true));
            }
            if w < cur@.len() {
                assert(ws.ensures((cur@[w],), false));
            }
            lemma_prefix_len(cur@, ws_pred(), w);
            assert(orig.skip(consumed).skip(w) =~= orig.skip(consumed + w));
        }
        if j.is_empty() {
            proof {
                assert(w == cur@.len());
                assert(next_token_spec(cur@) == (TokenKind::Eof, cur@.len() as int, cur@.len() as int));
                assert(cur@.len() == orig.len() - consumed);
                assert(j@ =~= orig.subrange(orig.len() as int, orig.len() as int));
                assert(j@ =~= orig.skip(orig.len() as int));
                let t = next_token_spec(orig);
                assert(t == (TokenKind::Eof, orig.len() as int, orig.len() as int));
                assert(j@ == orig.subrange(t.1, t.2));
            }
            return (j, Token { kind: TokenKind::Eof, slice: j });
        }
        let cm = comment(j);
        match cm {
            Some(pair) => {
                let l = pair.0;
                let c = pair.1;
                proof {
                    let n = c@.len() as int;
                    assert(c@ == j@.take(comment_len(j@)->Some_0));
                    assert(n == comment_len(j@)->Some_0);
                    assert(n <= j@.len());
                    assert(j@.len() == orig.len() - consumed - w);
                    assert(next_token_spec(cur@) == shifted(next_token_spec(cur@.skip(w + n)), w + n));
                    assert(cur@.skip(w + n) =~= orig.skip(consumed + w + n));
                    assert(orig.skip(consumed + w).skip(n) =~= orig.skip(consumed + w + n));
                    consumed = consumed + w + n;
                }
                cur = l;
                continue;
            },
            None => {},
        }
        match delimiter(j) {
            Some(pair) => {
                let l = pair.0;
                let d = pair.1;
                proof {
                    let n = d@.len() as int;
                    assert(comment_len(j@).is_none());
                    assert(j@ == cur@.skip(w));
                    assert(next_token_spec(cur@) == (TokenKind::Delimiter, w, w + n));
                    assert(j@.take(n) =~= orig.subrange(consumed + w, consumed + w + n));
                    assert(j@.skip(n) =~= orig.skip(consumed + w + n));
                }
                return (l, Token { kind: TokenKind::Delimiter, slice: d });
            },
            None => {},
        }
        match take_while1(&ident, j) {
            Some((l, id)) => {
                proof {
                    let n = id@.len() as int;
                    assert forall|x: int| 0 <= x < n implies #[trigger] ident_pred()(j@[x]) by {
                        assert(ident.ensures((j@[x],), true));
                    }
                    if n < j@.len() {
                        assert(ident.ensures((j@[n],), false));
                    }
                    lemma_prefix_len(j@, ident_pred(), n);
                    assert(comment_len(j@).is_none());
                    assert(delimiter_len(j@) == 0);
                    assert(is_identifier_spec(j@[0])) by {
                        assert(ident.ensures((j@[0],), true));
                    }
                    assert(j@ == cur@.skip(w));
                    assert(next_token_spec(cur@) == (TokenKind::Identifier, w, w + n));
                    assert(j@.take(n) =~= orig.subrange(consumed + w, consumed + w + n));
                    assert(j@.skip(n) =~= orig.skip(consumed + w + n));
                }
                return (l, Token { kind: TokenKind::Identifier, slice: id });
            },
            None => {},
        }
        let (l, invalid) = take_while(&not_ws, j);
        proof {
            let n = invalid@.len() as int;
            assert forall|x: int| 0 <= x < n implies #[trigger] not_ws_pred()(j@[x]) by {
                assert(not_ws.ensures((j@[x],), true));
            }
            if n < j@.len() {
                assert(not_ws.ensures((j@[n],), false));
            }
            lemma_prefix_len(j@, not_ws_pred(), n);
            assert(comment_len(j@).is_none());
            assert(delimiter_len(j@) == 0);
            assert(j@ == cur@.skip(w));
            assert(next_token_spec(cur@) == (TokenKind::Invalid, w, w + n));
            assert(j@.take(n) =~= orig.subrange(consumed + w, consumed + w + n));
            assert(j@.skip(n) =~= orig.skip(consumed + w + n));
        }
        return (l, Token { kind: TokenKind::Invalid, slice: invalid });
    }
}

/// Whether `rest` and the token of kind `kind` and text `slice` are what
/// `t` describes in `i`: the kind, the offsets of the token's text, and
/// the offset of the rest.
pub open spec fn is_token_at(
    i: Seq<char>,
    t: (TokenKind, int, int, int),
    rest: Seq<char>,
    kind: TokenKind,
    slice: Seq<char>,
) -> bool {
    &&& 0 <= t.1 <= t.2 <= t.3 <= i.len()
    &&& kind == t.0
    &&& slice == i.subrange(t.1, t.2)
    &&& rest == i.skip(t.3)
}

/// Whether a tokenizer's result is what `t` describes in `i`.
pub open spec fn result_is(i: Seq<char>, r: Option<(&str, Token)>, t: Option<(TokenKind, int, int, int)>) -> bool {
    match (r, t) {
        (Some((rest, tok)), Some(t)) => is_token_at(i, t, rest@, tok.kind, tok.slice@),
        (None, None) => true,
        _ => false,
    }
}

/// Length of the escape sequence at the start of `i`: `$` and the
/// character after it, if any.
pub open spec fn escape_len(i: Seq<char>) -> Option<int> {
    if i.len() >= 1 && i[0] == '$' {
        Some(
            if i.len() >= 2 {
                2
            } else {
                1
            },
        )
    } else {
        None
    }
}

/// The character `t` at the start of `i`, with whitespace before and
/// after it: the offsets of `t` and of what follows the whitespace after it.
pub open spec fn ws_delimited_spec(i: Seq<char>, t: char) -> Option<(int, int, int)> {
    let w1 = prefix_len(i, ws_pred());
    if w1 == 0 || w1 >= i.len() || i[w1] != t {
        None
    } else {
        let w2 = prefix_len(i.skip(w1 + 1), ws_pred());
        if w2 == 0 {
            None
        } else {
            Some((w1, w1 + 1, w1 + 1 + w2))
        }
    }
}

/// Scans an entry value from character `k` on: it ends before a `$`,
/// before a line feed outside a list, or, within a list, at whitespace
/// followed by `;` or `]` and whitespace; trailing whitespace is left out.
/// `end` is the end so far, `prev_ws` whether the previous character was
/// whitespace, `check` whether a `;` or `]` after whitespace was just seen.
pub open spec fn entry_scan(
    s: Seq<char>,
    k: int,
    in_list: bool,
    end: Option<int>,
    prev_ws: bool,
    check: bool,
) -> Option<int>
    decreases s.len() - k,
{
    if k < 0 || k >= s.len() {
        end
    } else {
        let ch = s[k];
        if !in_list && ch == '\n' {
            Some(k)
        } else if ch == '$' {
            Some(k)
        } else if check && is_whitespace_spec(ch) {
            end
        } else {
            let cur = is_whitespace_spec(ch);
            if (ch == ';' || ch == ']') && prev_ws {
                entry_scan(s, k + 1, in_list, end, cur, true)
            } else if !cur {
                entry_scan(s, k + 1, in_list, Some(k + 1), cur, false)
            } else {
                entry_scan(s, k + 1, in_list, end, cur, false)
            }
        }
    }
}

/// Length of the verbatim text at the start of an entry value (see
/// `entry_scan`); all of it when the scan finds no end.
pub open spec fn entry_verbatim_len(s: Seq<char>, in_list: bool) -> int {
    match entry_scan(s, 0, in_list, None, false, false) {
        Some(e) => e,
        None => s.len() as int,
    }
}

/// The next token of an entry value: `$"` opening a string, a line feed,
/// within a list a `]` or `;` between whitespace, an escape sequence, or
/// verbatim text.
pub open spec fn next_token_in_entry_value_spec(i: Seq<char>, in_list: bool) -> Option<
    (TokenKind, int, int, int),
> {
    if i.len() >= 2 && i[0] == '$' && i[1] == '"' {
        Some((TokenKind::Delimiter, 0, 2, 2))
    } else if i.len() >= 1 && i[0] == '\n' {
        Some((TokenKind::Delimiter, 0, 1, 1))
    } else if in_list && ws_delimited_spec(i, ']').is_some() {
        let d = ws_delimited_spec(i, ']')->Some_0;
        Some((TokenKind::Delimiter, d.0, d.1, d.2))
    } else if in_list && ws_delimited_spec(i, ';').is_some() {
        let d = ws_delimited_spec(i, ';')->Some_0;
        Some((TokenKind::Delimiter, d.0, d.1, d.2))
    } else if escape_len(i).is_some() {
        let e = escape_len(i)->Some_0;
        Some((TokenKind::Escape, 0, e, e))
    } else {
        let e = entry_verbatim_len(i, in_list);
        if e > 0 {
            Some((TokenKind::Verbatim, 0, e, e))
        } else {
            None
        }
    }
}

/// The next token of a string: its closing `"`, an escape sequence, or
/// verbatim text up to a `$` or `"`.
pub open spec fn next_token_in_string_spec(i: Seq<char>) -> Option<(TokenKind, int, int, int)> {
    if i.len() >= 1 && i[0] == '"' {
        Some((TokenKind::Delimiter, 0, 1, 1))
    } else if escape_len(i).is_some() {
        let e = escape_len(i)->Some_0;
        Some((TokenKind::Escape, 0, e, e))
    } else {
        let e = prefix_len(i, string_text_pred());
        if e > 0 {
            Some((TokenKind::Verbatim, 0, e, e))
        } else {
            None
        }
    }
}

/// The next entry name of `i` after whitespace and comments: the offsets
/// of its text, which runs up to whitespace.
pub open spec fn next_entry_name_spec(i: Seq<char>) -> Option<(int, int)>
    decreases i.len(),
{
    let w = prefix_len(i, ws_pred());
    let j = i.skip(w);
    if w < i.len() && comment_len(j).is_some() {
        let c = comment_len(j)->Some_0;
        proof {
            lemma_prefix_len_bounds(i, ws_pred());
            lemma_prefix_len_bounds(j.skip(1), not_newline_pred());
        }
        match next_entry_name_spec(i.skip(w + c)) {
            Some((a, b)) => Some((a + w + c, b + w + c)),
            None => None,
        }
    } else {
        let k = prefix_len(j, not_ws_pred());
        if k == 0 {
            None
        } else {
            Some((w, w + k))
        }
    }
}

/// The escape sequence at the start of `i` (see `escape_len`).
fn escape_sequence<'a>(i: &'a str) -> (r: Option<(&'a str, Token<'a>)>)
    ensures
        result_is(
            i@,
            r,
            match escape_len(i@) {
                Some(e) => Some((TokenKind::Escape, 0, e, e)),
                None => None,
            },
        ),
{
    let chars = chars_of(i);
    if chars.len() == 0 || chars[0] != '$' {
        return None;
    }
    let end: usize = if chars.len() >= 2 { 2 } else { 1 };
    let (slice, rest) = split_at_char(i, end);
    Some((rest, Token { kind: TokenKind::Escape, slice }))
}

/// The character `t` with whitespace on both sides at the start of `i`
/// (see `ws_delimited_spec`): the rest, then `t`.
fn whitespace_delimited<'a>(t: &str, i: &'a str) -> (r: Option<(&'a str, &'a str)>)
    requires
        t@.len() == 1,
    ensures
        r.is_some() == ws_delimited_spec(i@, t@[0]).is_some(),
        r.is_some() ==> ({
            let d = ws_delimited_spec(i@, t@[0])->Some_0;
            &&& 0 <= d.0 <= d.1 <= d.2 <= i@.len()
            &&& r->Some_0.1@ == i@.subrange(d.0, d.1)
            &&& r->Some_0.0@ == i@.skip(d.2)
        }),
{
    let ws = |ch: char| -> (b: bool)
        ensures
            b == is_whitespace_spec(ch),
        { is_whitespace(ch) };
    let (j, before) = match take_while1(&ws, i) {
        Some(x) => x,
        None => {
            proof {
                if i@.len() > 0 {
                    assert(ws.ensures((i@[0],), false));
                    assert(!ws_pred()(i@[0]));
                }
                assert(prefix_len(i@, ws_pred()) == 0);
            }
            return None;
        },
    };
    let ghost w1 = before@.len() as int;
    proof {
        assert forall|x: int| 0 <= x < w1 implies #[trigger] ws_pred()(i@[x]) by {
            assert(ws.ensures((i@[x],), true));
        }
        if w1 < i@.len() {
            assert(ws.ensures((i@[w1],), false));
        }
        lemma_prefix_len(i@, ws_pred(), w1);
    }
    let (k, o) = match tag(t, j) {
        Some(x) => x,
        None => {
            proof {
                if w1 < i@.len() && i@[w1] == t@[0] {
                    assert(j@.take(1) =~= t@);
                }
            }
            return None;
        },
    };
    proof {
        assert(j@.take(1)[0] == j@[0]);
        assert(i@[w1] == t@[0]);
    }
    let (l, after) = match take_while1(&ws, k) {
        Some(x) => x,
        None => {
            proof {
                let u = i@.skip(w1 + 1);
                assert(k@ == u);
                if u.len() > 0 {
                    assert(ws.ensures((u[0],), false));
                    assert(!ws_pred()(u[0]));
                }
                assert(prefix_len(u, ws_pred()) == 0);
            }
            return None;
        },
    };
    proof {
        let u = i@.skip(w1 + 1);
        assert(k@ == u);
        let w2 = after@.len() as int;
        assert forall|x: int| 0 <= x < w2 implies #[trigger] ws_pred()(u[x]) by {
            assert(ws.ensures((u[x],), true));
        }
        if w2 < u.len() {
            assert(ws.ensures((u[w2],), false));
        }
        lemma_prefix_len(u, ws_pred(), w2);
        assert(o@ =~= i@.subrange(w1, w1 + 1));
        assert(l@ =~= i@.skip(w1 + 1 + w2));
    }
    Some((l, o))
}

/// The end of the verbatim text at the start of an entry value (see
/// `entry_verbatim_len`).
fn entry_verbatim_end(chars: &Vec<char>, in_list: bool) -> (r: usize)
    ensures
        r == entry_verbatim_len(chars@, in_list),
{
    let ghost s = chars@;
    let mut end: Option<usize> = None;
    let mut prev_ws = false;
    let mut check = false;
    let mut k: usize = 0;
    while k < chars.len()
        invariant
            s == chars@,
            k <= chars.len(),
            end matches Some(e) ==> e <= k,
            entry_scan(s, 0, in_list, None, false, false) == entry_scan(
                s,
                k as int,
                in_list,
                match end {
                    Some(e) => Some(e as int),
                    None => None,
                },
                prev_ws,
                check,
            ),
        decreases chars.len() - k,
    {
        let ch = chars[k];
        if !in_list && ch == '\n' {
            return k;
        }
        if ch == '$' {
            return k;
        }
        if check && is_whitespace(ch) {
            return match end {
                Some(e) => e,
                None => chars.len(),
            };
        }
        let cur = is_whitespace(ch);
        if (ch == ';' || ch == ']') && prev_ws {
            check = true;
        } else {
            check = false;
            if !cur {
                end = Some(k + 1);
            }
        }
        prev_ws = cur;
        k += 1;
    }
    match end {
        Some(e) => e,
        None => chars.len(),
    }
}

/// The next token of an entry value (see `next_token_in_entry_value_spec`)
/// and the rest of the input.
pub fn next_token_in_entry_value<'a>(i: &'a str, in_list: bool) -> (r: Option<(&'a str, Token<'a>)>)
    ensures
        result_is(i@, r, next_token_in_entry_value_spec(i@, in_list)),
{
    proof {
        reveal_strlit("$\"");
        reveal_strlit("\n");
        reveal_strlit("]");
        reveal_strlit(";");
        assert("$\""@ =~= seq!['$', '"']);
        assert("\n"@ =~= seq!['\n']);
        assert("]"@ =~= seq![']']);
        assert(";"@ =~= seq![';']);
    }
    match tag("$\"", i) {
        Some((j, slice)) => {
            proof {
                assert(i@.take(2)[0] == i@[0] && i@.take(2)[1] == i@[1]);
            }
            return Some((j, Token { kind: TokenKind::Delimiter, slice }));
        },
        None => {},
    }
    proof {
        if i@.len() >= 2 && i@[0] == '$' && i@[1] == '"' {
            assert(i@.take(2) =~= "$\""@);
        }
    }
    match tag("\n", i) {
        Some((j, slice)) => {
            proof {
                assert(i@.take(1)[0] == i@[0]);
            }
            return Some((j, Token { kind: TokenKind::Delimiter, slice }));
        },
        None => {},
    }
    proof {
        if i@.len() >= 1 && i@[0] == '\n' {
            assert(i@.take(1) =~= "\n"@);
        }
    }
    if in_list {
        match whitespace_delimited("]", i) {
            Some((j, slice)) => {
                return Some((j, Token { kind: TokenKind::Delimiter, slice }));
            },
            None => {},
        }
        match whitespace_delimited(";", i) {
            Some((j, slice)) => {
                return Some((j, Token { kind: TokenKind::Delimiter, slice }));
            },
            None => {},
        }
    }
    match escape_sequence(i) {
        Some(x) => {
            return Some(x);
        },
        None => {},
    }
    let chars = chars_of(i);
    let end = entry_verbatim_end(&chars, in_list);
    proof {
        lemma_entry_scan_bounds(i@, 0, in_list, None, false, false);
    }
    let (value, rest) = split_at_char(i, end);
    if end > 0 {
        Some((rest, Token { kind: TokenKind::Verbatim, slice: value }))
    } else {
        None
    }
}

/// The end that `entry_scan` finds lies within the text.
proof fn lemma_entry_scan_bounds(
    s: Seq<char>,
    k: int,
    in_list: bool,
    end: Option<int>,
    prev_ws: bool,
    check: bool,
)
    requires
        0 <= k,
        end matches Some(e) ==> 0 <= e <= s.len(),
    ensures
        entry_scan(s, k, in_list, end, prev_ws, check) matches Some(e) ==> 0 <= e <= s.len(),
    decreases s.len() - k,
{
    if k < s.len() {
        let ch = s[k];
        let cur = is_whitespace_spec(ch);
        lemma_entry_scan_bounds(s, k + 1, in_list, end, cur, true);
        lemma_entry_scan_bounds(s, k + 1, in_list, Some(k + 1), cur, false);
        lemma_entry_scan_bounds(s, k + 1, in_list, end, cur, false);
    }
}

/// The next token of a string (see `next_token_in_string_spec`) and the
/// rest of the input.
pub fn next_token_in_string<'a>(i: &'a str) -> (r: Option<(&'a str, Token<'a>)>)
    ensures
        result_is(i@, r, next_token_in_string_spec(i@)),
{
    proof {
        reveal_strlit("\"");
        assert("\""@ =~= seq!['"']);
    }
    match tag("\"", i) {
        Some((j, slice)) => {
            proof {
                assert(i@.take(1)[0] == i@[0]);
            }
            return Some((j, Token { kind: TokenKind::Delimiter, slice }));
        },
        None => {},
    }
    proof {
        if i@.len() >= 1 && i@[0] == '"' {
            assert(i@.take(1) =~= "\""@);
        }
    }
    match escape_sequence(i) {
        Some(x) => {
            return Some(x);
        },
        None => {},
    }
    next_token_in_string_verbatim(i)
}

/// The verbatim text of a string at the start of `i`, up to a `$` or `"`.
fn next_token_in_string_verbatim<'a>(i: &'a str) -> (r: Option<(&'a str, Token<'a>)>)
    ensures
        result_is(
            i@,
            r,
            ({
                let e = prefix_len(i@, string_text_pred());
                if e > 0 {
                    Some((TokenKind::Verbatim, 0, e, e))
                } else {
                    None
                }
            }),
        ),
{
    let text = |ch: char| -> (b: bool)
        ensures
            b == (ch != '$' && ch != '"'),
        { ch != '$' && ch != '"' };
    let (rest, value) = take_while0(&text, i);
    proof {
        let e = value@.len() as int;
        assert forall|x: int| 0 <= x < e implies #[trigger] string_text_pred()(i@[x]) by {
            assert(text.ensures((i@[x],), true));
        }
        if e < i@.len() {
            assert(text.ensures((i@[e],), false));
        }
        lemma_prefix_len(i@, string_text_pred(), e);
    }
    if !value.is_empty() {
        Some((rest, Token { kind: TokenKind::Verbatim, slice: value }))
    } else {
        None
    }
}

/// The next entry name of `i`, after whitespace and comments (see
/// `next_entry_name_spec`), and the rest of the input.
pub fn next_entry_name<'a>(i: &'a str) -> (r: Option<(&'a str, Token<'a>)>)
    ensures
        result_is(
            i@,
            r,
            match next_entry_name_spec(i@) {
                Some((a, b)) => Some((TokenKind::EntryName, a, b, b)),
                None => None,
            },
        ),
{
    let ghost orig = i@;
    let ghost mut consumed: int = 0;
    let mut cur = i;
    let ws = |ch: char| -> (b: bool)
        ensures
            b == is_whitespace_spec(ch),
        { is_whitespace(ch) };
    let not_ws = |ch: char| -> (b: bool)
        ensures
            b == !is_whitespace_spec(ch),
        { !is_whitespace(ch) };
    proof {
        assert(orig.skip(0) =~= orig);
    }
    loop
        invariant
            orig == i@,
            0 <= consumed <= orig.len(),
            cur@ == orig.skip(consumed),
            next_entry_name_spec(orig) == (match next_entry_name_spec(cur@) {
                Some((a, b)) => Some((a + consumed, b + consumed)),
                None => None,
            }),
            forall|ch: char| #[trigger] ws.requires((ch,)),
            forall|ch: char, b: bool| ws.ensures((ch,), b) ==> b == is_whitespace_spec(ch),
            forall|ch: char| #[trigger] not_ws.requires((ch,)),
            forall|ch: char, b: bool| not_ws.ensures((ch,), b) ==> b == !is_whitespace_spec(ch),
        decreases cur@.len(),
    {
        let (j, skipped) = take_while0(&ws, cur);
        let ghost w = skipped@.len() as int;
        proof {
            assert forall|x: int| 0 <= x < w implies #[trigger] ws_pred()(cur@[x]) by {
                assert(ws.ensures((cur@[x],), true));
            }
            if w < cur@.len() {
                assert(ws.ensures((cur@[w],), false));
            }
            lemma_prefix_len(cur@, ws_pred(), w);
            assert(orig.skip(consumed).skip(w) =~= orig.skip(consumed + w));
        }
        let cm = comment(j);
        match cm {
            Some(pair) => {
                let l = pair.0;
                let c = pair.1;
                proof {
                    let n = c@.len() as int;
                    assert(c@ == j@.take(comment_len(j@)->Some_0));
                    assert(n == comment_len(j@)->Some_0);
                    assert(j@.len() == orig.len() - consumed - w);
                    assert(j@.len() > 0);
                    assert(w < cur@.len());
                    assert(cur@.skip(w + n) =~= orig.skip(consumed + w + n));
                    assert(orig.skip(consumed + w).skip(n) =~= orig.skip(consumed + w + n));
                    consumed = consumed + w + n;
                }
                cur = l;
                continue;
            },
            None => {},
        }
        match take_while1(&not_ws, j) {
            Some((rest, value)) => {
                proof {
                    let n = value@.len() as int;
                    assert forall|x: int| 0 <= x < n implies #[trigger] not_ws_pred()(j@[x]) by {
                        assert(not_ws.ensures((j@[x],), true));
                    }
                    if n < j@.len() {
                        assert(not_ws.ensures((j@[n],), false));
                    }
                    lemma_prefix_len(j@, not_ws_pred(), n);
                    assert(j@ == cur@.skip(w));
                    assert(next_entry_name_spec(cur@) == Some((w, w + n)));
                    assert(j@.take(n) =~= orig.subrange(consumed + w, consumed + w + n));
                    assert(j@.skip(n) =~= orig.skip(consumed + w + n));
                }
                return Some((rest, Token { kind: TokenKind::EntryName, slice: value }));
            },
            None => {
                proof {
                    if j@.len() > 0 {
                        assert(not_ws.ensures((j@[0],), false));
                        assert(!not_ws_pred()(j@[0]));
                    }
                    assert(prefix_len(j@, not_ws_pred()) == 0);
                    assert(j@ == cur@.skip(w));
                    assert(next_entry_name_spec(cur@) == None::<(int, int)>);
                }
                return None;
            },
        }
    }
}

/// A run of identifier characters (ASCII letters and digits, `_` and `-`)
/// at the start of the text is read as one identifier token: the whole run,
/// up to the first character that is none of these.
pub proof fn law_identifier_run(s: Seq<char>, k: int)
    requires
        1 <= k <= s.len(),
        forall|j: int|
            0 <= j < k ==> ('a' <= #[trigger] s[j] <= 'z') || ('A' <= s[j] <= 'Z') || ('0' <= s[j] <= '9') || s[j] == '_'
                || s[j] == '-',
        k < s.len() ==> !(('a' <= s[k] <= 'z') || ('A' <= s[k] <= 'Z') || ('0' <= s[k] <= '9') || s[k] == '_' || s[k]
            == '-'),
    ensures
        next_token_spec(s) == (TokenKind::Identifier, 0int, k),
{
    assert(('a' <= s[0] <= 'z') || ('A' <= s[0] <= 'Z') || ('0' <= s[0] <= '9') || s[0] == '_' || s[0] == '-');
    lemma_prefix_len(s, ws_pred(), 0);
    assert(s.skip(0) =~= s);
    assert forall|j: int| 0 <= j < k implies #[trigger] ident_pred()(s[j]) by {
        assert(('a' <= s[j] <= 'z') || ('A' <= s[j] <= 'Z') || ('0' <= s[j] <= '9') || s[j] == '_' || s[j] == '-');
    }
    lemma_prefix_len(s, ident_pred(), k);
}

/// The identifier characters are exactly the ASCII letters and digits, `_`
/// and `-`: a text made of one such character followed by a space is read
/// as that one-character identifier, and a character outside them never
/// starts an identifier token.
pub proof fn law_identifier_characters(c: char)
    ensures
        (('a' <= c <= 'z') || ('A' <= c <= 'Z') || ('0' <= c <= '9') || c == '_' || c == '-') ==> next_token_spec(
            seq![c, ' '],
        ) == (TokenKind::Identifier, 0int, 1int),
        !(('a' <= c <= 'z') || ('A' <= c <= 'Z') || ('0' <= c <= '9') || c == '_' || c == '-') ==> next_token_spec(
            seq![c, ' '],
        ).0 != TokenKind::Identifier,
{
    let s = seq![c, ' '];
    if ('a' <= c <= 'z') || ('A' <= c <= 'Z') || ('0' <= c <= '9') || c == '_' || c == '-' {
        law_identifier_run(s, 1);
    } else {
        let w = prefix_len(s, ws_pred());
        lemma_prefix_len_bounds(s, ws_pred());
        if is_whitespace_spec(c) {
            assert(ws_pred()(s[0]));
            assert(ws_pred()(s[1]));
            lemma_prefix_len(s, ws_pred(), 2);
        } else {
            lemma_prefix_len(s, ws_pred(), 0);
            assert(s.skip(0) =~= s);
            if c != '#' && delimiter_len(s) == 0 {
                assert(!is_identifier_spec(s[0]));
            }
            if c == '#' {
                // A comment runs to the end of the line, here to the end of the text.
                let j = s.skip(0);
                assert(comment_len(j).is_some());
                let t = j.skip(1);
                assert(t =~= seq![' ']);
                assert(not_newline_pred()(t[0]));
                lemma_prefix_len(t, not_newline_pred(), 1);
                assert(s.skip(2) =~= Seq::<char>::empty());
                lemma_prefix_len(s.skip(2), ws_pred(), 0);
                assert(next_token_spec(s.skip(2)).0 == TokenKind::Eof);
                assert(next_token_spec(s).0 == TokenKind::Eof);
            } else if delimiter_len(s) > 0 {
                assert(next_token_spec(s).0 == TokenKind::Delimiter);
            } else {
                assert(next_token_spec(s).0 == TokenKind::Invalid);
            }
        }
    }
}

} // verus!
