//! The panel that shows completions.

use vstd::prelude::*;

use crate::panels::{LayoutInfo, LayoutPlace};

use crate::position::Position;
use crate::state::completions::CompletionItem;
use crate::text::{str_byte_len, to_owned_string, utf8_len};
use crate::ui::layout::{Rect, Size};

verus! {

/// The panel that shows completions.
pub struct Completions {
    rect: Rect,
}

impl Default for Completions {
    fn default() -> (r: Self)
        ensures
            r.rect_spec() == (Rect { x: 0, y: 0, width: 1, height: 1 }),
    {
        Completions { rect: Rect::default() }
    }
}

impl Completions {
    /// Where the panel is.
    pub closed spec fn rect_spec(self) -> Rect {
        self.rect
    }

    /// Places the panel at `rect`.
    pub fn set_rect(&mut self, rect: Rect)
        ensures
            final(self).rect_spec() == rect,
    {
        self.rect = rect;
    }

    /// Placed by hand, next to the cursor.
    pub fn layout_info(&self) -> (r: LayoutInfo)
        ensures
            r.place == LayoutPlace::ManuallyManaged,
            r.width.is_none(),
            r.height.is_none(),
            r.padding.is_none(),
    {
        LayoutInfo { place: LayoutPlace::ManuallyManaged, width: None, height: None, padding: None }
    }
}

/// The width a completion needs: its label, its type annotation, and room
/// for the marks around them, counted in bytes.
pub open spec fn item_width(item: CompletionItem) -> int {
    utf8_len(item.label@) + match item.type_annotation {
        Some(a) => utf8_len(a@),
        None => 0,
    } + 7
}

/// The widest of the items (0 for none).
pub open spec fn widest(items: Seq<CompletionItem>) -> int
    decreases items.len(),
{
    if items.len() == 0 {
        0
    } else {
        let w = widest(items.drop_last());
        if item_width(items.last()) > w {
            item_width(items.last())
        } else {
            w
        }
    }
}

/// The width the widest completion needs (see `item_width`).
pub fn labels_width(items: &Vec<CompletionItem>) -> (r: usize)
    requires
        forall|i: int| 0 <= i < items@.len() ==> item_width(#[trigger] items@[i]) <= i32::MAX,
    ensures
        r == widest(items@),
{
    let mut w: usize = 0;
    let mut i: usize = 0;
    while i < items.len()
        invariant
            i <= items@.len(),
            forall|j: int| 0 <= j < items@.len() ==> item_width(#[trigger] items@[j]) <= i32::MAX,
            w == widest(items@.take(i as int)),
        decreases items@.len() - i,
    {
        let it = &items[i];
        proof {
            assert(item_width(items@[i as int]) <= i32::MAX);
            crate::text::lemma_utf8_len_nonneg(it.label@);
            match &it.type_annotation {
                Some(a) => crate::text::lemma_utf8_len_nonneg(a@),
                None => {},
            }
        }
        let annotation = match &it.type_annotation {
            Some(a) => str_byte_len(a.as_str()),
            None => 0,
        };
        let x = str_byte_len(it.label.as_str()) + annotation + 7;
        proof {
            let t = items@.take(i + 1);
            assert(t.drop_last() =~= items@.take(i as int));
            assert(t.last() == items@[i as int]);
        }
        if x > w {
            w = x;
        }
        i += 1;
    }
    proof {
        assert(items@.take(i as int) =~= items@);
    }
    w
}

/// `x` clamped into `[lo, hi]`.
pub open spec fn clamped(x: int, lo: int, hi: int) -> int {
    if x < lo {
        lo
    } else if x > hi {
        hi
    } else {
        x
    }
}

/// Where and how large the completion box is, and which item it shows
/// first.
pub struct PopupLayout {
    pub position: Position,
    pub size: Size,
    /// The index of the first item shown.
    pub first_item: i32,
}

/// The layout of the completion box for `count` items, `selected` of them
/// selected (from 1; 0 for none), items `widest` wide, placed under
/// `target` (the start of the symbol completed, on the screen) within
/// `viewport`: at most 9 items, scrolled to keep the selected one near the
/// middle; 12 to 60 columns wide; one row below and one column left of the
/// target, moved left to stay within the viewport's width (but not past its
/// left edge), and above the target when it would reach the viewport's
/// bottom.
pub open spec fn popup_layout_spec(count: int, selected: int, widest: int, target: Position, viewport: Size) -> (
    Position,
    Size,
    int,
) {
    let shown = if count < 9 {
        count
    } else {
        9
    };
    let first = clamped(selected - (shown / 2 + 1), 0, count - shown);
    let width = clamped(widest, 12, 60);
    let height = shown;
    let c0 = target.column - 1;
    let c1 = if c0 + width >= viewport.column {
        viewport.column - width
    } else {
        c0
    };
    let c2 = if c1 < 0 {
        0
    } else {
        c1
    };
    let r0 = target.row + 1;
    let r1 = if r0 + height >= viewport.row {
        target.row - height
    } else {
        r0
    };
    (Position { column: c2 as i32, row: r1 as i32 }, Size { column: width as i32, row: height as i32 }, first)
}

/// The layout of the completion box (see `popup_layout_spec`).
pub fn popup_layout(count: usize, selected: i32, widest: usize, target: Position, viewport: Size) -> (r: PopupLayout)
    requires
        count <= i32::MAX,
        -0x4000_0000 < target.column < 0x4000_0000,
        -0x4000_0000 < target.row < 0x4000_0000,
        -0x4000_0000 < viewport.column < 0x4000_0000,
        -0x4000_0000 < selected < 0x4000_0000,
    ensures
        (r.position, r.size, r.first_item as int) == popup_layout_spec(
            count as int,
            selected as int,
            widest as int,
            target,
            viewport,
        ),
{
    let n = count as i32;
    let shown: i32 = if n < 9 {
        n
    } else {
        9
    };
    let lo: i32 = selected - (shown / 2 + 1);
    let first: i32 = if lo < 0 {
        0
    } else if lo > n - shown {
        n - shown
    } else {
        lo
    };
    let width: i32 = if widest < 12 {
        12
    } else if widest > 60 {
        60
    } else {
        widest as i32
    };
    let height = shown;
    let mut column: i32 = target.column - 1;
    if column + width >= viewport.column {
        column = viewport.column - width;
    }
    if column < 0 {
        column = 0;
    }
    let mut row: i32 = target.row + 1;
    if row as i64 + height as i64 >= viewport.row as i64 {
        row = target.row - height;
    }
    PopupLayout { position: Position { column, row }, size: Size { column: width, row: height }, first_item: first }
}

/// The scroll bar beside `height` items shown of `count`, the first shown
/// being `first`: row `i` is marked when it lies between the window's start
/// `first * height / count` and its end, `height * height / count` further.
pub open spec fn scrollbar_marked(i: int, height: int, count: int, first: int) -> bool {
    let start = (first * height) / count;
    let end = start + (height * height) / count;
    start <= i <= end
}

/// The rows of the scroll bar (see `scrollbar_marked`).
pub fn scrollbar_content(height: i32, count: i32, first: i32) -> (r: Vec<String>)
    requires
        0 <= height <= 9,
        0 < count,
        0 <= first <= count,
    ensures
        r@.len() == height,
        forall|i: int|
            0 <= i < height ==> (#[trigger] r@[i])@ == if scrollbar_marked(i, height as int, count as int, first as int) {
                "▌"@
            } else {
                " "@
            },
{
    proof {
        assert((height as int) * (height as int) <= 81) by (nonlinear_arith)
            requires
                0 <= height <= 9,
        ;
        assert(0 <= (first as int) * (height as int) <= 9 * 0x7fff_ffff) by (nonlinear_arith)
            requires
                0 <= first <= 0x7fff_ffff,
                0 <= height <= 9,
        ;
    }
    let hh: i64 = height as i64 * height as i64;
    let fh: i64 = first as i64 * height as i64;
    let window_size: i64 = hh / (count as i64);
    let window_start: i64 = fh / (count as i64);
    proof {
        assert(window_start <= fh) by (nonlinear_arith)
            requires
                0 <= fh,
                0 < count,
                window_start as int == (fh as int) / (count as int),
        ;
        assert(window_size <= hh) by (nonlinear_arith)
            requires
                0 <= hh,
                0 < count,
                window_size as int == (hh as int) / (count as int),
        ;
    }
    let window_end: i64 = window_start + window_size;
    let mut r: Vec<String> = Vec::new();
    let mut i: i32 = 0;
    while i < height
        invariant
            0 <= i <= height,
            r@.len() == i,
            window_start as int == (first as int * height as int) / (count as int),
            window_end as int == window_start + (height as int * height as int) / (count as int),
            forall|j: int|
                0 <= j < i ==> (#[trigger] r@[j])@ == if scrollbar_marked(j, height as int, count as int, first as int) {
                    "▌"@
                } else {
                    " "@
                },
        decreases height - i,
    {
        if window_start <= i as i64 && i as i64 <= window_end {
            r.push(to_owned_string("▌"));
        } else {
            r.push(to_owned_string(" "));
        }
        i += 1;
    }
    r
}

} // verus!
