//! The panel that shows line numbers beside the editor.

use vstd::prelude::*;

use crate::config::Config;
use crate::position::Position;
use crate::state::modeline::config_theme_color;
use crate::text::{decimal_string, decimal_text, push_char, push_str};
use crate::ui::layout::{Rect, Size};
use crate::ui::style::Style;
use crate::ui::ui_state::{StyledRegion, UiPanel};

verus! {

/// An `i32` has at most ten digits.
proof fn lemma_decimal_digits_bound(n: int)
    requires
        0 <= n <= i32::MAX,
    ensures
        decimal_digits(n) <= 10,
{
    reveal_with_fuel(decimal_digits, 11);
}

proof fn lemma_decimal_digits_positive(n: int)
    ensures
        decimal_digits(n) >= 1,
    decreases n,
{
    if n >= 10 {
        lemma_decimal_digits_positive(n / 10);
    }
}

/// The number of decimal digits of `n`.
pub open spec fn decimal_digits(n: int) -> int
    decreases n,
{
    if n < 10 {
        1
    } else {
        1 + decimal_digits(n / 10)
    }
}

/// The panel that shows line numbers beside the editor.
pub struct LineNumbers {
    rect: Rect,
}

impl Default for LineNumbers {
    fn default() -> (r: Self)
        ensures
            r.rect_spec() == (Rect { x: 0, y: 0, width: 1, height: 1 }),
    {
        LineNumbers { rect: Rect::default() }
    }
}

impl LineNumbers {
    const LEFT_PAD_LEN: i32 = 1;

    const RIGHT_PAD_LEN: i32 = 2;

    /// Where the panel is.
    pub closed spec fn rect_spec(self) -> Rect {
        self.rect
    }

    /// Where the panel is.
    pub fn rect(&self) -> (r: Rect)
        ensures
            r == self.rect_spec(),
    {
        self.rect
    }

    /// Places the panel at `rect`.
    pub fn set_rect(&mut self, rect: Rect)
        ensures
            final(self).rect_spec() == rect,
    {
        self.rect = rect;
    }

    /// Columns needed to show the numbers of `line_count` lines, the line
    /// count of the active buffer: one column of left padding, the digits,
    /// two columns of right padding; 2 when there is no active buffer.
    pub fn required_width(&self, line_count: Option<i32>) -> (r: i32)
        requires
            line_count matches Some(n) ==> n > 0,
        ensures
            r == match line_count {
                Some(n) => decimal_digits(n as int) + 3,
                None => 2,
            },
    {
        let max_line = match line_count {
            Some(n) => n,
            None => {
                return 2;
            },
        };
        let mut digits: i32 = 1;
        let mut rest: i32 = max_line;
        proof {
            lemma_decimal_digits_bound(max_line as int);
            lemma_decimal_digits_positive(max_line as int);
        }
        while rest >= 10
            invariant
                0 < rest <= max_line,
                1 <= digits <= decimal_digits(max_line as int),
                decimal_digits(max_line as int) <= 10,
                decimal_digits(max_line as int) == digits - 1 + decimal_digits(rest as int),
            decreases rest,
        {
            proof {
                lemma_decimal_digits_positive(rest as int / 10);
            }
            rest = rest / 10;
            digits += 1;
        }
        digits + Self::LEFT_PAD_LEN + Self::RIGHT_PAD_LEN
    }
}

/// `n` spaces.
pub open spec fn spaces(n: int) -> Seq<char> {
    Seq::new(n as nat, |_i: int| ' ')
}

/// `n` in decimal, with a minus sign when negative.
pub open spec fn signed_decimal(n: int) -> Seq<char> {
    if n < 0 {
        seq!['-'] + decimal_text((-n) as nat)
    } else {
        decimal_text(n as nat)
    }
}

/// The line that shows number `n` in a panel `width` wide: the number
/// right-aligned before two columns of padding, the first of which is `‹`
/// when the view is scrolled to the right.
pub open spec fn number_line(n: int, width: int, scrolled: bool) -> Seq<char> {
    let s = signed_decimal(n);
    let left = if width - s.len() - 2 > 0 {
        width - s.len() - 2
    } else {
        0
    };
    spaces(left) + s + if scrolled {
        seq!['‹', ' ']
    } else {
        spaces(2)
    }
}

/// The number shown on row `i` of a view whose top row is `top`.
pub open spec fn row_number(i: int, top: int) -> int {
    i + top + 1
}

/// Whether row `i` shows no number: past the buffer's `line_count` lines,
/// or the same number as the row above (for the first row, the number 0).
pub open spec fn row_blank(i: int, top: int, line_count: int) -> bool {
    let n = row_number(i, top);
    let previous = if i == 0 {
        0
    } else {
        row_number(i - 1, top)
    };
    n == previous || n > line_count
}

/// The text of row `i` of the panel.
pub open spec fn row_text(i: int, top: Position, line_count: int, width: int) -> Seq<char> {
    if row_blank(i, top.row as int, line_count) {
        spaces(width)
    } else {
        number_line(row_number(i, top.row as int), width, top.column != 0)
    }
}

/// The colors of the panel: numbers, background, the cursor's line, the
/// last line.
pub open spec fn number_color(config: Config, n: int, current_row: int, line_count: int) -> Option<crate::ui::style::Color> {
    if current_row + 1 == n {
        config_theme_color(config, "linenumbers-current"@)
    } else if n == line_count {
        config_theme_color(config, "linenumbers-last"@)
    } else {
        config_theme_color(config, "linenumbers-fg"@)
    }
}

/// The styled regions of the first `k` rows: the background of the whole
/// panel, then one region per row that shows a number.
pub open spec fn number_spans(
    k: int,
    config: Config,
    top: Position,
    line_count: int,
    current_row: int,
    width: int,
    height: int,
) -> Seq<StyledRegion>
    decreases k,
{
    let bg = config_theme_color(config, "linenumbers-bg"@);
    if k <= 0 {
        seq![StyledRegion {
            from: Position { column: 0, row: 0 },
            to: Position { column: width as i32, row: height as i32 },
            style: Style { foreground_color: None, background_color: bg, invert: false, underlined: false, bold: false },
            priority: 0,
        }]
    } else {
        let prev = number_spans(k - 1, config, top, line_count, current_row, width, height);
        if row_blank(k - 1, top.row as int, line_count) {
            prev
        } else {
            prev.push(
                StyledRegion {
                    from: Position { column: 0, row: (k - 1) as i32 },
                    to: Position { column: width as i32, row: (k - 1) as i32 },
                    style: Style {
                        foreground_color: number_color(config, row_number(k - 1, top.row as int), current_row, line_count),
                        background_color: bg,
                        invert: false,
                        underlined: false,
                        bold: false,
                    },
                    priority: 0,
                },
            )
        }
    }
}

fn spaces_string(n: i32) -> (r: String)
    requires
        n >= 0,
    ensures
        r@ == spaces(n as int),
{
    let mut r = String::new();
    let mut i: i32 = 0;
    while i < n
        invariant
            0 <= i <= n,
            r@ == spaces(i as int),
        decreases n - i,
    {
        push_char(&mut r, ' ');
        i += 1;
        proof {
            assert(r@ =~= spaces(i as int));
        }
    }
    r
}

fn signed_decimal_string(n: i32) -> (r: String)
    ensures
        r@ == signed_decimal(n as int),
{
    if n < 0 {
        let mut r = String::new();
        push_char(&mut r, '-');
        let d = decimal_string((-(n as i64)) as u64);
        push_str(&mut r, d.as_str());
        proof {
            assert(r@ =~= seq!['-'] + decimal_text((-n) as nat));
        }
        r
    } else {
        decimal_string(n as u64)
    }
}

impl LineNumbers {
    /// The panel of line numbers beside a view whose top-left is `top` and
    /// that shows `rows` rows of a buffer of `line_count` lines, the primary
    /// cursor on `current_row` (see `row_text` and `number_spans`).
    pub fn render(&self, config: &Config, rows: i32, top: Position, line_count: i32, current_row: i32) -> (r: UiPanel)
        requires
            config.wf(),
            self.rect_spec().width >= 0,
            -0x4000_0000 < top.row < 0x4000_0000,
            rows < 0x4000_0000,
            current_row < i32::MAX,
        ensures
            r.position == (Position { column: self.rect_spec().x, row: self.rect_spec().y }),
            r.size == (Size { column: self.rect_spec().width, row: self.rect_spec().height }),
            r.content@.len() == if rows > 0 {
                rows as int
            } else {
                0
            },
            forall|i: int|
                0 <= i < r.content@.len() ==> (#[trigger] r.content@[i])@ == row_text(
                    i,
                    top,
                    line_count as int,
                    self.rect_spec().width as int,
                ),
            r.spans@ == number_spans(
                if rows > 0 {
                    rows as int
                } else {
                    0
                },
                *config,
                top,
                line_count as int,
                current_row as int,
                self.rect_spec().width as int,
                self.rect_spec().height as int,
            ),
    {
        let width = self.rect.width;
        let height = self.rect.height;
        let fg = config.get_theme_color("linenumbers-fg");
        let bg = config.get_theme_color("linenumbers-bg");
        let current = config.get_theme_color("linenumbers-current");
        let last = config.get_theme_color("linenumbers-last");
        proof {
            reveal_strlit("linenumbers-fg");
            reveal_strlit("linenumbers-bg");
            reveal_strlit("linenumbers-current");
            reveal_strlit("linenumbers-last");
        }
        let mut content: Vec<String> = Vec::new();
        let mut spans: Vec<StyledRegion> = Vec::new();
        spans.push(
            StyledRegion {
                from: Position { column: 0, row: 0 },
                to: Position { column: width, row: height },
                style: Style { foreground_color: None, background_color: bg, invert: false, underlined: false, bold: false },
                priority: 0,
            },
        );
        let mut previous: i32 = 0;
        let mut i: i32 = 0;
        proof {
            assert(spans@ =~= number_spans(0, *config, top, line_count as int, current_row as int, width as int, height as int));
        }
        while i < rows
            invariant
                0 <= i,
                rows > 0 ==> i <= rows,
                rows <= 0 ==> i == 0,
                rows < 0x4000_0000,
                -0x4000_0000 < top.row < 0x4000_0000,
                width == self.rect_spec().width,
                height == self.rect_spec().height,
                width >= 0,
                current_row < i32::MAX,
                config.wf(),
                fg == config_theme_color(*config, "linenumbers-fg"@),
                bg == config_theme_color(*config, "linenumbers-bg"@),
                current == config_theme_color(*config, "linenumbers-current"@),
                last == config_theme_color(*config, "linenumbers-last"@),
                previous == if i == 0 {
                    0
                } else {
                    row_number(i - 1, top.row as int)
                },
                content@.len() == i,
                forall|j: int| 0 <= j < i ==> (#[trigger] content@[j])@ == row_text(j, top, line_count as int, width as int),
                spans@ == number_spans(i as int, *config, top, line_count as int, current_row as int, width as int, height as int),
            decreases rows - i,
        {
            let n: i32 = i + top.row + 1;
            let blank = n == previous || n > line_count;
            previous = n;
            if blank {
                content.push(spaces_string(width));
            } else {
                let s = signed_decimal_string(n);
                let len = crate::text::char_count(s.as_str());
                proof {
                    assert(s@.len() <= 12) by {
                        lemma_signed_decimal_len(n as int);
                    }
                }
                let left: i32 = if width as i64 - len as i64 - 2 > 0 {
                    (width as i64 - len as i64 - 2) as i32
                } else {
                    0
                };
                let mut line = spaces_string(left);
                push_str(&mut line, s.as_str());
                if top.column != 0 {
                    push_char(&mut line, '‹');
                    push_char(&mut line, ' ');
                } else {
                    push_str(&mut line, spaces_string(2).as_str());
                }
                proof {
                    assert(line@ =~= number_line(n as int, width as int, top.column != 0));
                }
                content.push(line);
                let color = if current_row + 1 == n {
                    current
                } else if n == line_count {
                    last
                } else {
                    fg
                };
                spans.push(
                    StyledRegion {
                        from: Position { column: 0, row: i },
                        to: Position { column: width, row: i },
                        style: Style { foreground_color: color, background_color: bg, invert: false, underlined: false, bold: false },
                        priority: 0,
                    },
                );
            }
            i += 1;
        }
        UiPanel {
            position: self.rect.top_left(),
            size: self.rect.size(),
            content,
            spans,
        }
    }
}

proof fn lemma_signed_decimal_len(n: int)
    requires
        -0x8000_0000 <= n <= 0x7fff_ffff,
    ensures
        signed_decimal(n).len() <= 12,
{
    lemma_decimal_text_len(if n < 0 { -n } else { n });
}

proof fn lemma_decimal_text_len(n: int)
    requires
        0 <= n <= 0x8000_0000,
    ensures
        decimal_text(n as nat).len() <= 11,
{
    lemma_decimal_text_digits(n);
    reveal_with_fuel(decimal_digits, 11);
}

proof fn lemma_decimal_text_digits(n: int)
    requires
        0 <= n,
    ensures
        decimal_text(n as nat).len() == decimal_digits(n),
    decreases n,
{
    if n >= 10 {
        lemma_decimal_text_digits(n / 10);
    }
}

} // verus!
