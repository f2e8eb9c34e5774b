//! The panel that shows suggestions below a prompt.

use vstd::prelude::*;

use crate::panels::line_numbers::spaces;
use crate::position::{Offset, Position};
use crate::text::{push_char, str_byte_len, to_owned_string, utf8_len};
use crate::ui::layout::{Rect, Size};
use crate::ui::style::{Color, Style};
use crate::ui::ui_state::{StyledRegion, UiPanel};

verus! {

/// The panel that shows suggestions below a prompt.
pub struct Suggestions {
    rect: Rect,
}

impl Default for Suggestions {
    fn default() -> (r: Self)
        ensures
            r.rect_spec() == (Rect { x: 0, y: 0, width: 1, height: 1 }),
    {
        Suggestions { rect: Rect::default() }
    }
}

impl Suggestions {
    /// Where the panel is.
    pub closed spec fn rect_spec(self) -> Rect {
        self.rect
    }

    /// Where the panel is.
    pub fn rect(&self) -> (r: Rect)
        ensures
            r == self.rect_spec(),
    {
        self.rect
    }

    /// Places the panel at `rect`.
    pub fn set_rect(&mut self, rect: Rect)
        ensures
            final(self).rect_spec() == rect,
    {
        self.rect = rect;
    }
}

/// Row `i` of the suggestion box: the item, padded with spaces to `width`
/// (counting the item's bytes).
pub open spec fn suggestion_row(item: Seq<char>, width: int) -> Seq<char> {
    item + spaces(width - utf8_len(item))
}

/// The region of row `i`: the whole row, on the bright accent when the item
/// is the selected one (counted from 1), else on the accent.
pub open spec fn suggestion_span(i: int, width: int, selected: int, accent: Color, bright: Color) -> StyledRegion {
    StyledRegion {
        from: Position { column: 0, row: i as i32 },
        to: Position { column: width as i32, row: i as i32 },
        style: Style {
            foreground_color: None,
            background_color: Some(if selected == i + 1 { bright } else { accent }),
            invert: false,
            underlined: false,
            bold: false,
        },
        priority: 0,
    }
}

/// The widest item, in bytes (0 for none).
pub open spec fn widest_item(items: Seq<String>) -> int
    decreases items.len(),
{
    if items.len() == 0 {
        0
    } else {
        let w = widest_item(items.drop_last());
        if utf8_len(items.last()@) > w {
            utf8_len(items.last()@)
        } else {
            w
        }
    }
}

proof fn lemma_widest_item(items: Seq<String>, i: int)
    requires
        0 <= i < items.len(),
    ensures
        utf8_len(items[i]@) <= widest_item(items),
    decreases items.len(),
{
    if i < items.len() - 1 {
        lemma_widest_item(items.drop_last(), i);
        assert(items.drop_last()[i] == items[i]);
    }
}

/// The rows and regions of the suggestion box (see `suggestion_row` and
/// `suggestion_span`).
fn suggestion_rows(items: &Vec<String>, selected: i32, width: i32, accent: Color, bright: Color) -> (r: (
    Vec<String>,
    Vec<StyledRegion>,
))
    requires
        items@.len() < i32::MAX,
        forall|i: int| 0 <= i < items@.len() ==> utf8_len((#[trigger] items@[i])@) <= width,
    ensures
        r.0@.len() == items@.len(),
        forall|i: int| 0 <= i < items@.len() ==> (#[trigger] r.0@[i])@ == suggestion_row(items@[i]@, width as int),
        r.1@ == Seq::new(
            items@.len(),
            |i: int| suggestion_span(i, width as int, selected as int, accent, bright),
        ),
{
    let mut content: Vec<String> = Vec::new();
    let mut spans: Vec<StyledRegion> = Vec::new();
    let mut i: usize = 0;
    while i < items.len()
        invariant
            i <= items@.len(),
            items@.len() < i32::MAX,
            forall|j: int| 0 <= j < items@.len() ==> utf8_len((#[trigger] items@[j])@) <= width,
            content@.len() == i,
            forall|j: int| 0 <= j < i ==> (#[trigger] content@[j])@ == suggestion_row(items@[j]@, width as int),
            spans@ == Seq::new(i as nat, |j: int| suggestion_span(j, width as int, selected as int, accent, bright)),
        decreases items@.len() - i,
    {
        let item = items[i].as_str();
        let len = str_byte_len(item);
        proof {
            assert(utf8_len(items@[i as int]@) <= width);
        }
        let mut row = to_owned_string(item);
        let pad: usize = width as usize - len;
        let mut k: usize = 0;
        while k < pad
            invariant
                k <= pad,
                row@ == item@ + spaces(k as int),
            decreases pad - k,
        {
            push_char(&mut row, ' ');
            k += 1;
            proof {
                assert(row@ =~= item@ + spaces(k as int));
            }
        }
        content.push(row);
        let idx = i as i32;
        let background = if selected == idx + 1 {
            bright
        } else {
            accent
        };
        spans.push(
            StyledRegion {
                from: Position { column: 0, row: idx },
                to: Position { column: width, row: idx },
                style: Style {
                    foreground_color: None,
                    background_color: Some(background),
                    invert: false,
                    underlined: false,
                    bold: false,
                },
                priority: 0,
            },
        );
        proof {
            assert(spans@ =~= Seq::new(
                (i + 1) as nat,
                |j: int| suggestion_span(j, width as int, selected as int, accent, bright),
            ));
        }
        i += 1;
    }
    (content, spans)
}

impl Suggestions {
    /// The suggestion box below the cursor, at `cursor` on the screen,
    /// within `viewport`: as wide as the widest item (at least 10 columns),
    /// one row per item; one row below and one column left of the cursor,
    /// moved left to stay within the viewport's width, and above the cursor
    /// when it would reach the viewport's bottom.
    pub fn render_at_cursor(
        items: &Vec<String>,
        selected: i32,
        cursor: Position,
        viewport: Size,
        accent: Color,
        bright: Color,
    ) -> (r: UiPanel)
        requires
            items@.len() < 0x4000_0000,
            widest_item(items@) < 0x4000_0000,
            -0x4000_0000 < cursor.column < 0x4000_0000,
            -0x4000_0000 < cursor.row < 0x4000_0000,
            -0x4000_0000 < viewport.column < 0x4000_0000,
            -0x4000_0000 < viewport.row < 0x4000_0000,
        ensures
            ({
                let width = if widest_item(items@) > 10 {
                    widest_item(items@)
                } else {
                    10
                };
                let height = items@.len() as int;
                let c0 = cursor.column - 1;
                let column = if c0 + width >= viewport.column {
                    viewport.column - width
                } else {
                    c0
                };
                let r0 = cursor.row + 1;
                let row = if r0 + height >= viewport.row {
                    cursor.row - height
                } else {
                    r0
                };
                &&& r.position == (Position { column: column as i32, row: row as i32 })
                &&& r.size == (Size { column: width as i32, row: height as i32 })
                &&& r.content@.len() == height
                &&& forall|i: int| 0 <= i < height ==> (#[trigger] r.content@[i])@ == suggestion_row(items@[i]@, width)
                &&& r.spans@ == Seq::new(height as nat, |i: int| suggestion_span(i, width, selected as int, accent, bright))
            }),
    {
        let mut widest: usize = 0;
        let mut i: usize = 0;
        while i < items.len()
            invariant
                i <= items@.len(),
                widest == widest_item(items@.take(i as int)),
                widest_item(items@) < 0x4000_0000,
            decreases items@.len() - i,
        {
            let l = str_byte_len(items[i].as_str());
            proof {
                let t = items@.take(i + 1);
                assert(t.drop_last() =~= items@.take(i as int));
                assert(t.last() == items@[i as int]);
                lemma_widest_item(items@, i as int);
            }
            if l > widest {
                widest = l;
            }
            i += 1;
        }
        proof {
            assert(items@.take(i as int) =~= items@);
        }
        let width: i32 = if widest > 10 {
            widest as i32
        } else {
            10
        };
        let height = items.len() as i32;
        let mut column: i32 = cursor.column - 1;
        if column + width >= viewport.column {
            column = viewport.column - width;
        }
        let mut row: i32 = cursor.row + 1;
        if row + height >= viewport.row {
            row = cursor.row - height;
        }
        proof {
            assert forall|j: int| 0 <= j < items@.len() implies utf8_len((#[trigger] items@[j])@) <= width by {
                lemma_widest_item(items@, j);
            }
        }
        let (content, spans) = suggestion_rows(items, selected, width, accent, bright);
        UiPanel { position: Position { column, row }, size: Size { column: width, row: height }, content, spans }
    }

    /// The suggestion box above the modeline, `modeline` on the screen, as
    /// wide as it, one row per item.
    pub fn render_at_modeline(items: &Vec<String>, selected: i32, modeline: Rect, accent: Color, bright: Color) -> (r:
        UiPanel)
        requires
            items@.len() < i32::MAX,
            forall|i: int| 0 <= i < items@.len() ==> utf8_len((#[trigger] items@[i])@) <= modeline.width,
        ensures
            r.position == (Position { column: modeline.x, row: crate::position::sat_add_i32(modeline.y as int, -(items@.len() as int)) }),
            r.size == (Size { column: modeline.width, row: items@.len() as i32 }),
            r.content@.len() == items@.len(),
            forall|i: int|
                0 <= i < items@.len() ==> (#[trigger] r.content@[i])@ == suggestion_row(items@[i]@, modeline.width as int),
            r.spans@ == Seq::new(
                items@.len(),
                |i: int| suggestion_span(i, modeline.width as int, selected as int, accent, bright),
            ),
    {
        let height = items.len() as i32;
        let position = modeline.top_left().offset(Offset::new(0, -height));
        let (content, spans) = suggestion_rows(items, selected, modeline.width, accent, bright);
        UiPanel { position, size: Size { column: modeline.width, row: height }, content, spans }
    }
}

} // verus!
