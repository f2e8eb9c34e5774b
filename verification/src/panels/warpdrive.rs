//! The warpdrive panel: jump to a word of the view by typing its code.

use vstd::prelude::*;

use crate::position::Position;
use crate::pattern::{regex_compiles_of, regex_find_iter, regex_find_iter_of, spans_view};
use crate::text::{
    byte_index_to_char_index, char_index_at_byte, chars_of, push_char, starts_with, string_from_chars,
};
use crate::ui::layout::Rect;

verus! {

/// The warpdrive panel.
pub struct Warpdrive {
    rect: Rect,
    state: Option<WarpdriveState>,
}

/// The content shown with the codes of the jump points, what was typed so
/// far, and the jump points whose code it begins.
pub struct WarpdriveState {
    content: Vec<String>,
    input: String,
    jump_points: Vec<JumpPoint>,
}

/// What typing a character led to: more to type, no jump point left, or the
/// one jump point left, as the start and end of its word.
#[derive(Debug, Clone, Copy)]
pub enum WarpdriveInputResult {
    Unfinished,
    FinishedEmpty,
    Finished((Position, Position)),
}

/// A word to jump to: its code, where it starts in the view, and where it
/// starts and ends in the buffer.
#[derive(Debug)]
pub struct JumpPoint {
    pub code: String,
    pub start_in_view: Position,
    pub start: Position,
    pub end: Position,
}

/// Whether `prefix` begins `s`.
pub open spec fn is_prefix(prefix: Seq<char>, s: Seq<char>) -> bool {
    prefix.len() <= s.len() && s.take(prefix.len() as int) == prefix
}

/// The jump points whose code begins with `input`, in order.
pub open spec fn jump_points_with_prefix(jps: Seq<JumpPoint>, input: Seq<char>) -> Seq<JumpPoint>
    decreases jps.len(),
{
    if jps.len() == 0 {
        Seq::empty()
    } else {
        jump_points_with_prefix(jps.drop_last(), input) + (if is_prefix(input, jps.last().code@) {
            seq![jps.last()]
        } else {
            Seq::empty()
        })
    }
}

impl Default for Warpdrive {
    fn default() -> (r: Self)
        ensures
            r.rect_spec() == (Rect { x: 0, y: 0, width: 1, height: 1 }),
            r.state_spec().is_none(),
    {
        Warpdrive { rect: Rect::default(), state: None }
    }
}

impl Warpdrive {
    /// Where the panel is.
    pub closed spec fn rect_spec(self) -> Rect {
        self.rect
    }

    /// The state of a jump under way.
    pub closed spec fn state_spec(self) -> Option<WarpdriveState> {
        self.state
    }

    /// Where the panel is.
    pub fn rect(&self) -> (r: Rect)
        ensures
            r == self.rect_spec(),
    {
        self.rect
    }

    /// Places the panel at `rect`.
    pub fn set_rect(&mut self, rect: Rect)
        ensures
            final(self).rect_spec() == rect,
            final(self).state_spec() == old(self).state_spec(),
    {
        self.rect = rect;
    }

    /// Ends the jump under way.
    pub fn clear_state(&mut self)
        ensures
            final(self).state_spec().is_none(),
            final(self).rect_spec() == old(self).rect_spec(),
    {
        self.state = None;
    }
}

impl WarpdriveState {
    /// The content shown.
    pub closed spec fn content_spec(self) -> Seq<String> {
        self.content@
    }

    /// What was typed so far.
    pub closed spec fn input_spec(self) -> Seq<char> {
        self.input@
    }

    /// The jump points whose code begins with what was typed.
    pub closed spec fn jump_points_spec(self) -> Seq<JumpPoint> {
        self.jump_points@
    }

    /// A jump under way over `content` with the given jump points, nothing
    /// typed yet.
    pub fn from_parts(content: Vec<String>, jump_points: Vec<JumpPoint>) -> (r: Self)
        ensures
            r.content_spec() == content@,
            r.input_spec() == Seq::<char>::empty(),
            r.jump_points_spec() == jump_points@,
    {
        WarpdriveState { content, input: String::new(), jump_points }
    }

    /// Types `ch`: keeps the jump points whose code begins with what was
    /// typed; finished when one is left (which is taken) or none.
    pub fn input(&mut self, ch: char) -> (r: WarpdriveInputResult)
        ensures
            final(self).input_spec() == old(self).input_spec().push(ch),
            final(self).content_spec() == old(self).content_spec(),
            ({
                let kept = jump_points_with_prefix(old(self).jump_points_spec(), old(self).input_spec().push(ch));
                if kept.len() == 1 {
                    &&& r == WarpdriveInputResult::Finished((kept[0].start, kept[0].end))
                    &&& final(self).jump_points_spec() == Seq::<JumpPoint>::empty()
                } else if kept.len() == 0 {
                    &&& r == WarpdriveInputResult::FinishedEmpty
                    &&& final(self).jump_points_spec() == kept
                } else {
                    &&& r == WarpdriveInputResult::Unfinished
                    &&& final(self).jump_points_spec() == kept
                }
            }),
    {
        push_char(&mut self.input, ch);
        let mut old_points = Vec::new();
        std::mem::swap(&mut old_points, &mut self.jump_points);
        let ghost all = old_points@;
        let mut kept: Vec<JumpPoint> = Vec::new();
        proof {
            assert(all.take(0) =~= Seq::<JumpPoint>::empty());
        }
        let ghost mut i: int = 0;
        while old_points.len() > 0
            invariant
                i + old_points@.len() == all.len(),
                0 <= i <= all.len(),
                old_points@ == all.skip(i),
                kept@ == jump_points_with_prefix(all.take(i), self.input@),
            decreases old_points@.len(),
        {
            let jp = old_points.remove(0);
            proof {
                assert(all.skip(i)[0] == jp);
                let t = all.take(i + 1);
                assert(t.drop_last() =~= all.take(i));
                assert(t.last() == jp);
            }
            if starts_with(jp.code.as_str(), self.input.as_str()) {
                kept.push(jp);
            }
            proof {
                i = i + 1;
                assert(old_points@ =~= all.skip(i));
            }
        }
        proof {
            assert(all.take(i) =~= all);
        }
        if kept.len() == 1 {
            let jp = kept.remove(0);
            self.jump_points = kept;
            WarpdriveInputResult::Finished((jp.start, jp.end))
        } else if kept.len() == 0 {
            self.jump_points = kept;
            WarpdriveInputResult::FinishedEmpty
        } else {
            self.jump_points = kept;
            WarpdriveInputResult::Unfinished
        }
    }
}

/// The letters that codes are made of.
pub open spec fn code_alphabet() -> Seq<char> {
    "abcdefghijklmnopqrstuvwxyz"@
}

/// The codes of `n` jump points, in order: one letter each when there are
/// at most 26 of them; otherwise they are split in runs of
/// `(n - 1) / 26 + 1` points, one letter per run, in order, and the codes
/// of each run continue that letter.
pub open spec fn jump_codes(n: int) -> Seq<Seq<char>>
    decreases n, n + 2,
{
    if n <= 0 {
        Seq::empty()
    } else if n <= 26 {
        Seq::new(n as nat, |i: int| seq![code_alphabet()[i]])
    } else {
        run_codes((n - 1) / 26 + 1, n, 0, n)
    }
}

/// The codes of the runs of `per` points of the last `r` of `n` points, the
/// first of these runs taking letter `k`.
pub open spec fn run_codes(per: int, r: int, k: int, n: int) -> Seq<Seq<char>>
    decreases n, r + 1,
{
    if r <= 0 || per <= 0 || per >= n {
        Seq::empty()
    } else {
        let m = if r < per {
            r
        } else {
            per
        };
        let head = prefixed(seq![code_alphabet()[k]], jump_codes(m));
        if r <= per {
            head
        } else {
            head + run_codes(per, r - per, k + 1, n)
        }
    }
}

/// Each code of `codes` after `prefix`.
pub open spec fn prefixed(prefix: Seq<char>, codes: Seq<Seq<char>>) -> Seq<Seq<char>> {
    codes.map_values(|c: Seq<char>| prefix + c)
}

/// The characters of each string.
pub open spec fn codes_view(v: Seq<String>) -> Seq<Seq<char>> {
    v.map_values(|s: String| s@)
}

/// Appends to `out` the codes of `n` jump points, each after `prefix`.
fn push_jump_codes(n: usize, prefix: &Vec<char>, out: &mut Vec<String>)
    ensures
        codes_view(final(out)@) == codes_view(old(out)@) + prefixed(prefix@, jump_codes(n as int)),
    decreases n,
{
    let alphabet = chars_of("abcdefghijklmnopqrstuvwxyz");
    proof {
        reveal_strlit("abcdefghijklmnopqrstuvwxyz");
        assert(alphabet@ == code_alphabet());
        assert(alphabet@.len() == 26);
    }
    if n == 0 {
        proof {
            assert(prefixed(prefix@, jump_codes(0)) =~= Seq::<Seq<char>>::empty());
            assert(codes_view(out@) + Seq::<Seq<char>>::empty() =~= codes_view(out@));
        }
        return;
    }
    let ghost start = codes_view(out@);
    if n <= 26 {
        let mut i: usize = 0;
        while i < n
            invariant
                n <= 26,
                i <= n,
                alphabet@ == code_alphabet(),
                alphabet@.len() == 26,
                jump_codes(n as int) == Seq::new(n as nat, |q: int| seq![code_alphabet()[q]]),
                codes_view(out@) == start + prefixed(prefix@, jump_codes(n as int)).take(i as int),
            decreases n - i,
        {
            let mut code = prefix.clone();
            proof {
                assert(code@ =~= prefix@);
            }
            code.push(alphabet[i]);
            let s = string_from_chars(code.as_slice());
            let ghost before = out@;
            out.push(s);
            proof {
                assert(s@ =~= prefix@ + seq![code_alphabet()[i as int]]);
                assert(codes_view(out@) =~= codes_view(before).push(s@));
                assert(prefixed(prefix@, jump_codes(n as int)).take(i as int + 1) =~= prefixed(
                    prefix@,
                    jump_codes(n as int),
                ).take(i as int).push(prefix@ + seq![code_alphabet()[i as int]]));
            }
            i += 1;
        }
        proof {
            assert(prefixed(prefix@, jump_codes(n as int)).take(n as int) =~= prefixed(prefix@, jump_codes(n as int)));
        }
    } else {
        let per: usize = (n - 1) / 26 + 1;
        let ghost nn = n as int;
        proof {
            assert(per < n);
            assert(per >= 2);
        }
        let mut r: usize = n;
        let mut k: usize = 0;
        proof {
            assert(codes_view(out@) + prefixed(prefix@, run_codes(per as int, r as int, k as int, nn)) =~= start
                + prefixed(prefix@, jump_codes(n as int)));
        }
        while r > 0
            invariant
                alphabet@ == code_alphabet(),
                alphabet@.len() == 26,
                nn == n,
                n > 26,
                per == (n - 1) / 26 + 1,
                2 <= per < n,
                r <= n,
                r > 0 ==> k * per + r == n,
                codes_view(out@) + prefixed(prefix@, run_codes(per as int, r as int, k as int, nn)) == start
                    + prefixed(prefix@, jump_codes(n as int)),
            decreases r,
        {
            proof {
                assert(k < 26) by (nonlinear_arith)
                    requires
                        k * per + r == n,
                        r > 0,
                        per == (n - 1) / 26 + 1,
                        n > 26,
                ;
            }
            let m: usize = if r < per {
                r
            } else {
                per
            };
            let mut code = prefix.clone();
            proof {
                assert(code@ =~= prefix@);
            }
            code.push(alphabet[k]);
            proof {
                assert(code@ =~= prefix@ + seq![code_alphabet()[k as int]]);
            }
            let ghost before = codes_view(out@);
            push_jump_codes(m, &code, out);
            proof {
                let head = prefixed(seq![code_alphabet()[k as int]], jump_codes(m as int));
                assert forall|q: int| 0 <= q < jump_codes(m as int).len() implies prefixed(prefix@, head)[q]
                    == prefixed(code@, jump_codes(m as int))[q] by {
                    assert(prefix@ + (seq![code_alphabet()[k as int]] + jump_codes(m as int)[q]) =~= (prefix@
                        + seq![code_alphabet()[k as int]]) + jump_codes(m as int)[q]);
                }
                assert(prefixed(prefix@, head) =~= prefixed(code@, jump_codes(m as int)));
                let rest = run_codes(per as int, r - per, k + 1, nn);
                if r <= per {
                    assert(run_codes(per as int, r as int, k as int, nn) == head);
                    assert(run_codes(per as int, (r - m) as int, (k + 1) as int, nn) =~= Seq::<Seq<char>>::empty());
                    assert(prefixed(prefix@, Seq::<Seq<char>>::empty()) =~= Seq::<Seq<char>>::empty());
                } else {
                    assert(run_codes(per as int, r as int, k as int, nn) == head + rest);
                    assert(prefixed(prefix@, head + rest) =~= prefixed(prefix@, head) + prefixed(prefix@, rest));
                }
                assert(codes_view(out@) + prefixed(prefix@, run_codes(per as int, (r - m) as int, (k + 1) as int, nn))
                    =~= before + prefixed(prefix@, run_codes(per as int, r as int, k as int, nn)));
            }
            r = r - m;
            k = k + 1;
            proof {
                if r > 0 {
                    assert(m == per);
                    assert(k * per + r == n) by (nonlinear_arith)
                        requires
                            (k - 1) * per + r + m == n,
                            m == per,
                    ;
                }
            }
        }
        proof {
            assert(run_codes(per as int, 0, k as int, nn) =~= Seq::<Seq<char>>::empty());
            assert(prefixed(prefix@, Seq::<Seq<char>>::empty()) =~= Seq::<Seq<char>>::empty());
            assert(codes_view(out@) + Seq::<Seq<char>>::empty() =~= codes_view(out@));
        }
    }
}

/// Gives each jump point its code (see `jump_codes`), in order.
pub fn assign_jump_point_codes(jump_points: &mut Vec<JumpPoint>)
    ensures
        final(jump_points)@.len() == old(jump_points)@.len(),
        forall|i: int|
            0 <= i < final(jump_points)@.len() ==> {
                let (a, b) = (#[trigger] final(jump_points)@[i], old(jump_points)@[i]);
                &&& a.code@ == jump_codes(old(jump_points)@.len() as int)[i]
                &&& a.start_in_view == b.start_in_view
                &&& a.start == b.start
                &&& a.end == b.end
            },
{
    let mut codes: Vec<String> = Vec::new();
    let no_prefix: Vec<char> = Vec::new();
    push_jump_codes(jump_points.len(), &no_prefix, &mut codes);
    proof {
        assert(codes_view(codes@) =~= prefixed(no_prefix@, jump_codes(jump_points@.len() as int)));
        assert forall|q: int| 0 <= q < jump_codes(jump_points@.len() as int).len() implies codes_view(codes@)[q]
            == jump_codes(jump_points@.len() as int)[q] by {
            assert(no_prefix@ + jump_codes(jump_points@.len() as int)[q] =~= jump_codes(jump_points@.len() as int)[q]);
        }
        lemma_jump_codes_len(jump_points@.len() as int);
        assert forall|q: int| 0 <= q < codes@.len() implies codes@[q]@ == jump_codes(jump_points@.len() as int)[q] by {
            assert(codes_view(codes@)[q] == codes@[q]@);
        }
    }
    let mut out: Vec<JumpPoint> = Vec::new();
    let mut i: usize = 0;
    while i < jump_points.len()
        invariant
            i <= jump_points@.len(),
            codes@.len() == jump_points@.len(),
            forall|q: int| 0 <= q < codes@.len() ==> codes@[q]@ == jump_codes(jump_points@.len() as int)[q],
            out@.len() == i,
            forall|q: int|
                0 <= q < i ==> {
                    let (a, b) = (#[trigger] out@[q], jump_points@[q]);
                    &&& a.code@ == jump_codes(jump_points@.len() as int)[q]
                    &&& a.start_in_view == b.start_in_view
                    &&& a.start == b.start
                    &&& a.end == b.end
                },
        decreases jump_points@.len() - i,
    {
        let jp = &jump_points[i];
        let code = string_from_chars(chars_of(codes[i].as_str()).as_slice());
        proof {
            assert(codes_view(codes@)[i as int] == codes@[i as int]@);
        }
        out.push(JumpPoint { code, start_in_view: jp.start_in_view, start: jp.start, end: jp.end });
        i += 1;
    }
    *jump_points = out;
}

/// There is one code per jump point.
proof fn lemma_jump_codes_len(n: int)
    ensures
        n >= 0 ==> jump_codes(n).len() == n,
    decreases n, n + 2,
{
    if n > 26 {
        let per = (n - 1) / 26 + 1;
        lemma_run_codes_len(per, n, 0, n);
    }
}

proof fn lemma_run_codes_len(per: int, r: int, k: int, n: int)
    requires
        r >= 0,
    ensures
        0 < per < n ==> run_codes(per, r, k, n).len() == r,
    decreases n, r + 1,
{
    if r > 0 && 0 < per < n {
        let m = if r < per {
            r
        } else {
            per
        };
        lemma_jump_codes_len(m);
        if r > per {
            lemma_run_codes_len(per, r - per, k + 1, n);
        }
    }
}

/// No code is a prefix of another.
pub open spec fn prefix_free(codes: Seq<Seq<char>>) -> bool {
    forall|i: int, j: int|
        0 <= i < codes.len() && 0 <= j < codes.len() && i != j ==> !is_prefix(#[trigger] codes[i], #[trigger] codes[j])
}

proof fn lemma_alphabet_distinct()
    ensures
        code_alphabet().len() == 26,
        forall|i: int, j: int| 0 <= i < 26 && 0 <= j < 26 && i != j ==> code_alphabet()[i] != code_alphabet()[j],
{
    reveal_strlit("abcdefghijklmnopqrstuvwxyz");
    let a = code_alphabet();
    assert(a =~= seq![
        'a', 'b', 'c', 'd', 'e', 'f', 'g', 'h', 'i', 'j', 'k', 'l', 'm', 'n', 'o', 'p', 'q', 'r', 's', 't', 'u', 'v', 'w',
        'x', 'y', 'z',
    ]);
    assert forall|i: int, j: int| 0 <= i < 26 && 0 <= j < 26 && i != j implies a[i] != a[j] by {
        assert(a[i] as int == 97 + i);
        assert(a[j] as int == 97 + j);
    }
}

/// Codes that start with different letters are no prefix of one another.
proof fn lemma_first_letters_differ(x: Seq<char>, y: Seq<char>)
    requires
        x.len() > 0,
        y.len() > 0,
        x[0] != y[0],
    ensures
        !is_prefix(x, y),
        !is_prefix(y, x),
{
    if is_prefix(x, y) {
        assert(y.take(x.len() as int)[0] == y[0]);
    }
    if is_prefix(y, x) {
        assert(x.take(y.len() as int)[0] == x[0]);
    }
}

/// The codes of the jump points are non-empty and prefix-free: typing the
/// code of one jump point never completes or begins the code of another.
pub proof fn law_jump_codes_prefix_free(n: int)
    ensures
        prefix_free(jump_codes(n)),
        forall|q: int| 0 <= q < jump_codes(n).len() ==> (#[trigger] jump_codes(n)[q]).len() > 0,
    decreases n, n + 2,
{
    lemma_alphabet_distinct();
    if n > 0 && n <= 26 {
        let c = jump_codes(n);
        assert forall|i: int, j: int| 0 <= i < c.len() && 0 <= j < c.len() && i != j implies !is_prefix(
            #[trigger] c[i],
            #[trigger] c[j],
        ) by {
            lemma_first_letters_differ(c[i], c[j]);
        }
    } else if n > 26 {
        let per = (n - 1) / 26 + 1;
        assert(0 * per + n <= 26 * per) by (nonlinear_arith)
            requires
                per == (n - 1) / 26 + 1,
                n > 26,
        ;
        lemma_run_codes_prefix_free(per, n, 0, n);
    }
}

proof fn lemma_run_codes_prefix_free(per: int, r: int, k: int, n: int)
    requires
        0 < per < n,
        r >= 0,
        k >= 0,
        k * per + r <= 26 * per,
    ensures
        prefix_free(run_codes(per, r, k, n)),
        forall|q: int|
            0 <= q < run_codes(per, r, k, n).len() ==> (#[trigger] run_codes(per, r, k, n)[q]).len() > 0 && exists|
                kk: int,
            |
                k <= kk < 26 && run_codes(per, r, k, n)[q][0] == code_alphabet()[kk],
    decreases n, r + 1,
{
    lemma_alphabet_distinct();
    if r > 0 {
        assert(k < 26) by (nonlinear_arith)
            requires
                k * per + r <= 26 * per,
                r > 0,
                per > 0,
        ;
        let m = if r < per {
            r
        } else {
            per
        };
        let letter = seq![code_alphabet()[k]];
        let j = jump_codes(m);
        law_jump_codes_prefix_free(m);
        let head = prefixed(letter, j);
        assert forall|q: int| 0 <= q < head.len() implies (#[trigger] head[q]).len() > 0 && head[q][0]
            == code_alphabet()[k] by {
            assert(head[q] == letter + j[q]);
        }
        assert(prefix_free(head)) by {
            assert forall|a: int, b: int| 0 <= a < head.len() && 0 <= b < head.len() && a != b implies !is_prefix(
                #[trigger] head[a],
                #[trigger] head[b],
            ) by {
                if is_prefix(head[a], head[b]) {
                    assert(head[a] == letter + j[a]);
                    assert(head[b] == letter + j[b]);
                    assert(j[b].take(j[a].len() as int) =~= head[b].take(head[a].len() as int).skip(1));
                    assert(j[a] =~= head[a].skip(1));
                }
            }
        }
        if r <= per {
            assert(run_codes(per, r, k, n) == head);
        } else {
            let rest = run_codes(per, r - per, k + 1, n);
            assert((k + 1) * per + (r - per) <= 26 * per) by (nonlinear_arith)
                requires
                    k * per + r <= 26 * per,
            ;
            lemma_run_codes_prefix_free(per, r - per, k + 1, n);
            let all = head + rest;
            assert(run_codes(per, r, k, n) == all);
            assert forall|a: int, b: int| 0 <= a < all.len() && 0 <= b < all.len() && a != b implies !is_prefix(
                #[trigger] all[a],
                #[trigger] all[b],
            ) by {
                if a < head.len() && b >= head.len() {
                    assert(all[b] == rest[b - head.len()]);
                    let kk = choose|kk: int| k + 1 <= kk < 26 && rest[b - head.len()][0] == code_alphabet()[kk];
                    lemma_first_letters_differ(all[a], all[b]);
                } else if a >= head.len() && b < head.len() {
                    assert(all[a] == rest[a - head.len()]);
                    let kk = choose|kk: int| k + 1 <= kk < 26 && rest[a - head.len()][0] == code_alphabet()[kk];
                    lemma_first_letters_differ(all[a], all[b]);
                } else if a >= head.len() {
                    assert(all[a] == rest[a - head.len()]);
                    assert(all[b] == rest[b - head.len()]);
                }
            }
            assert forall|q: int| 0 <= q < all.len() implies (#[trigger] all[q]).len() > 0 && exists|kk: int|
                k <= kk < 26 && all[q][0] == code_alphabet()[kk] by {
                if q < head.len() {
                    assert(all[q][0] == code_alphabet()[k]);
                } else {
                    assert(all[q] == rest[q - head.len()]);
                    let kk = choose|kk: int| k + 1 <= kk < 26 && rest[q - head.len()][0] == code_alphabet()[kk];
                    assert(all[q][0] == code_alphabet()[kk]);
                }
            }
        }
    }
}

/// The words that jump points lead to: runs of word characters.
pub const RE_JUMP_POINT: &'static str = "\\w+";

/// `n - 1`, or 0 for 0.
pub open spec fn saturating_pred(n: int) -> int {
    if n <= 0 {
        0
    } else {
        n - 1
    }
}

/// The view positions of the first and last characters, on row `row`, of
/// the word at byte span `span` of `line`.
pub open spec fn word_in_view(line: Seq<char>, row: int, span: (int, int)) -> (Position, Position) {
    (
        Position { column: char_index_at_byte(line, span.0) as i32, row: row as i32 },
        Position {
            column: saturating_pred(char_index_at_byte(line, span.1)) as i32,
            row: row as i32,
        },
    )
}

/// The words of `line`, shown on row `row`, in order of their matches.
pub open spec fn line_words_in_view(line: Seq<char>, row: int) -> Seq<(Position, Position)> {
    regex_find_iter_of(RE_JUMP_POINT@, line).map_values(
        |span: (int, int)| word_in_view(line, row, span),
    )
}

/// The words of all the lines of `content`, row after row.
pub open spec fn words_in_view(content: Seq<Seq<char>>) -> Seq<(Position, Position)>
    decreases content.len(),
{
    if content.len() == 0 {
        Seq::empty()
    } else {
        words_in_view(content.drop_last()) + line_words_in_view(
            content.last(),
            content.len() - 1,
        )
    }
}

/// The characters of each line.
pub open spec fn lines_chars(content: Seq<String>) -> Seq<Seq<char>> {
    content.map_values(|l: String| l@)
}

/// The words of `line`, shown on row `row`, as the view positions of their
/// first and last characters; `None` when the word pattern does not compile.
pub fn line_jump_words(line: &str, row: i32) -> (r: Option<Vec<(Position, Position)>>)
    ensures
        r.is_some() == regex_compiles_of(RE_JUMP_POINT@),
        r matches Some(v) ==> v@ == line_words_in_view(line@, row as int),
{
    let spans = match regex_find_iter(RE_JUMP_POINT, line) {
        Ok(s) => s,
        Err(()) => {
            return None;
        },
    };
    let ghost sv = spans_view(spans@);
    let mut out: Vec<(Position, Position)> = Vec::new();
    let mut k: usize = 0;
    while k < spans.len()
        invariant
            k <= spans.len(),
            sv == spans_view(spans@),
            sv == regex_find_iter_of(RE_JUMP_POINT@, line@),
            out@.len() == k,
            forall|j: int| 0 <= j < k ==> out@[j] == word_in_view(line@, row as int, #[trigger] sv[j]),
        decreases spans.len() - k,
    {
        let (s, e) = spans[k];
        let sc = byte_index_to_char_index(line, s);
        let ec = byte_index_to_char_index(line, e);
        let ec1 = if ec == 0 {
            0
        } else {
            ec - 1
        };
        out.push((Position { column: sc as i32, row }, Position { column: ec1 as i32, row }));
        proof {
            assert(sv[k as int] == (s as int, e as int));
        }
        k += 1;
    }
    proof {
        assert(out@ =~= line_words_in_view(line@, row as int));
    }
    Some(out)
}

/// The words of every line of `content`, shown on the line's row, as the
/// view positions of their first and last characters, row after row:
/// `None` exactly when there is a line and the word pattern does not
/// compile.
pub fn jump_point_words(content: &Vec<String>) -> (r: Option<Vec<(Position, Position)>>)
    requires
        content.len() <= i32::MAX,
    ensures
        r.is_none() <==> (content.len() > 0 && !regex_compiles_of(RE_JUMP_POINT@)),
        r matches Some(v) ==> v@ == words_in_view(lines_chars(content@)),
{
    let ghost cv = lines_chars(content@);
    let mut out: Vec<(Position, Position)> = Vec::new();
    let mut i: usize = 0;
    proof {
        assert(cv.take(0) =~= Seq::<Seq<char>>::empty());
    }
    while i < content.len()
        invariant
            i <= content.len(),
            content.len() <= i32::MAX,
            cv == lines_chars(content@),
            out@ == words_in_view(cv.take(i as int)),
            i > 0 ==> regex_compiles_of(RE_JUMP_POINT@),
        decreases content.len() - i,
    {
        let row = i as i32;
        let words = match line_jump_words(content[i].as_str(), row) {
            Some(w) => w,
            None => {
                return None;
            },
        };
        proof {
            let t = cv.take(i + 1);
            assert(t.drop_last() =~= cv.take(i as int));
            assert(t.last() == content@[i as int]@);
        }
        let mut k: usize = 0;
        let ghost before = out@;
        while k < words.len()
            invariant
                k <= words.len(),
                out@ == before + words@.take(k as int),
            decreases words.len() - k,
        {
            out.push(words[k]);
            proof {
                assert(words@.take(k + 1) =~= words@.take(k as int).push(words@[k as int]));
            }
            k += 1;
        }
        proof {
            assert(words@.take(k as int) =~= words@);
        }
        i += 1;
    }
    proof {
        assert(cv.take(i as int) =~= cv);
    }
    Some(out)
}

/// The codes of the jump points.
pub open spec fn point_codes(jps: Seq<JumpPoint>) -> Seq<Seq<char>> {
    jps.map_values(|jp: JumpPoint| jp.code@)
}

/// Filtering the points by a prefix and then by a longer one is filtering
/// by the longer one.
proof fn lemma_prefix_filter_twice(jps: Seq<JumpPoint>, typed: Seq<char>, c: char)
    ensures
        jump_points_with_prefix(jump_points_with_prefix(jps, typed), typed.push(c)) == jump_points_with_prefix(
            jps,
            typed.push(c),
        ),
    decreases jps.len(),
{
    if jps.len() > 0 {
        let rest = jps.drop_last();
        let last = jps.last();
        lemma_prefix_filter_twice(rest, typed, c);
        let a = jump_points_with_prefix(rest, typed);
        let longer = typed.push(c);
        if is_prefix(longer, last.code@) {
            assert(last.code@.take(typed.len() as int) =~= last.code@.take(longer.len() as int).take(typed.len() as int));
            assert(typed =~= longer.take(typed.len() as int));
            assert(is_prefix(typed, last.code@));
        }
        if is_prefix(typed, last.code@) {
            let b = a + seq![last];
            assert(b.drop_last() =~= a);
            assert(b.last() == last);
        } else {
            assert(!is_prefix(longer, last.code@));
        }
    }
}

/// The points kept under a prefix are among the points.
proof fn lemma_prefix_filter_members(jps: Seq<JumpPoint>, typed: Seq<char>, k: int)
    requires
        0 <= k < jps.len(),
        is_prefix(typed, jps[k].code@),
    ensures
        jump_points_with_prefix(jps, typed).contains(jps[k]),
    decreases jps.len(),
{
    let kept = jump_points_with_prefix(jps, typed);
    if k == jps.len() - 1 {
        assert(kept.last() == jps[k]);
        assert(kept[kept.len() - 1] == jps[k]);
    } else {
        lemma_prefix_filter_members(jps.drop_last(), typed, k);
        let a = jump_points_with_prefix(jps.drop_last(), typed);
        let i = choose|i: int| 0 <= i < a.len() && a[i] == jps[k];
        assert(kept[i] == a[i]);
    }
}

/// With prefix-free codes, the only point whose code begins with point
/// `k`'s whole code is point `k`.
proof fn lemma_prefix_filter_whole_code(jps: Seq<JumpPoint>, k: int)
    requires
        0 <= k < jps.len(),
        prefix_free(point_codes(jps)),
    ensures
        jump_points_with_prefix(jps, jps[k].code@) == seq![jps[k]],
    decreases jps.len(),
{
    let code = jps[k].code@;
    let last = jps.last();
    let rest = jps.drop_last();
    assert(point_codes(rest) =~= point_codes(jps).drop_last());
    assert forall|i: int, j: int|
        0 <= i < point_codes(rest).len() && 0 <= j < point_codes(rest).len() && i != j implies !is_prefix(
        #[trigger] point_codes(rest)[i],
        #[trigger] point_codes(rest)[j],
    ) by {
        assert(point_codes(rest)[i] == point_codes(jps)[i]);
        assert(point_codes(rest)[j] == point_codes(jps)[j]);
    }
    if k == jps.len() - 1 {
        assert(point_codes(jps)[k] == code);
        assert forall|i: int| 0 <= i < rest.len() implies !is_prefix(code, (#[trigger] rest[i]).code@) by {
            assert(point_codes(jps)[i] == rest[i].code@);
        }
        lemma_prefix_filter_none(rest, code);
        assert(code.take(code.len() as int) =~= code);
        assert(jump_points_with_prefix(jps, code) =~= seq![jps[k]]);
    } else {
        lemma_prefix_filter_whole_code(rest, k);
        assert(point_codes(jps)[k] == code);
        assert(point_codes(jps)[jps.len() - 1] == last.code@);
        assert(!is_prefix(code, last.code@));
        assert(jump_points_with_prefix(jps, code) =~= seq![jps[k]]);
    }
}

/// No point is kept when no code begins with the prefix.
proof fn lemma_prefix_filter_none(jps: Seq<JumpPoint>, typed: Seq<char>)
    requires
        forall|i: int| 0 <= i < jps.len() ==> !is_prefix(typed, (#[trigger] jps[i]).code@),
    ensures
        jump_points_with_prefix(jps, typed) == Seq::<JumpPoint>::empty(),
    decreases jps.len(),
{
    if jps.len() > 0 {
        assert forall|i: int| 0 <= i < jps.drop_last().len() implies !is_prefix(typed, (#[trigger] jps.drop_last()[i]).code@) by {
            assert(jps.drop_last()[i] == jps[i]);
        }
        lemma_prefix_filter_none(jps.drop_last(), typed);
        assert(!is_prefix(typed, jps[jps.len() - 1].code@));
        assert(jump_points_with_prefix(jps, typed) =~= Seq::<JumpPoint>::empty());
    }
}

/// Typing a jump point's code leads to it: while what was typed begins its
/// code, the point stays among those kept, so typing never ends empty; each
/// character typed filters the points already kept, as filtering all of
/// them by the longer input would; and once the whole code is typed, with
/// codes that are no prefix of one another, the point is the only one left.
pub proof fn law_typing_a_code_keeps_its_point(jps: Seq<JumpPoint>, typed: Seq<char>, k: int)
    requires
        0 <= k < jps.len(),
        is_prefix(typed, jps[k].code@),
    ensures
        jump_points_with_prefix(jps, typed).contains(jps[k]),
        forall|c: char|
            jump_points_with_prefix(jump_points_with_prefix(jps, typed), #[trigger] typed.push(c))
                == jump_points_with_prefix(jps, typed.push(c)),
        prefix_free(point_codes(jps)) && typed == jps[k].code@ ==> jump_points_with_prefix(jps, typed) == seq![jps[k]],
{
    lemma_prefix_filter_members(jps, typed, k);
    assert forall|c: char|
        jump_points_with_prefix(jump_points_with_prefix(jps, typed), #[trigger] typed.push(c))
            == jump_points_with_prefix(jps, typed.push(c)) by {
        lemma_prefix_filter_twice(jps, typed, c);
    }
    if prefix_free(point_codes(jps)) && typed == jps[k].code@ {
        lemma_prefix_filter_whole_code(jps, k);
    }
}

} // verus!
