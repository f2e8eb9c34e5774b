//! What the panels hand to the renderer: lines of text and styled regions.

use vstd::prelude::*;

use crate::position::{Position, sat_add_i32};
use crate::text::{chars_of, push_char};
use crate::ui::layout::{Rect, Size, max_spec, min_spec};
use crate::ui::style::Style;

verus! {

/// The panels to draw.
pub struct UiState {
    pub panels: Vec<UiPanel>,
}

/// A panel to draw: where, its size, its lines and its styled regions.
pub struct UiPanel {
    pub position: Position,
    pub size: Size,
    pub content: Vec<String>,
    pub spans: Vec<StyledRegion>,
}

/// A style applied to the cells between two positions, relative to the
/// panel's top-left; regions of higher priority win.
#[derive(Debug, Clone, Copy)]
pub struct StyledRegion {
    pub from: Position,
    pub to: Position,
    pub style: Style,
    pub priority: u8,
}

/// A panel ready to draw, its styled regions indexed by row.
pub struct PreparedUiPanel {
    pub position: Position,
    pub size: Size,
    pub content: Vec<String>,
    pub styled_regions: Vec<StyledRegion>,
    pub styled_regions_per_line: Vec<Vec<usize>>,
}

/// The glyph that stands for a tab.
pub open spec fn tab_glyph() -> char {
    '⬸'
}

/// A line with each tab replaced by the tab glyph.
pub open spec fn replace_tabs(s: Seq<char>) -> Seq<char> {
    s.map_values(|c: char| if c == '\t' { tab_glyph() } else { c })
}

/// The regions of priority `p`, in their order.
pub open spec fn with_priority(s: Seq<StyledRegion>, p: int) -> Seq<StyledRegion>
    decreases s.len(),
{
    if s.len() == 0 {
        Seq::empty()
    } else {
        with_priority(s.drop_last(), p) + (if s.last().priority == p {
            seq![s.last()]
        } else {
            Seq::empty()
        })
    }
}

/// The regions of priorities 255 down to `p`, the highest first, those of
/// equal priority in their order.
pub open spec fn by_priority_from(s: Seq<StyledRegion>, p: int) -> Seq<StyledRegion>
    decreases 256 - p,
{
    if p > 255 {
        Seq::empty()
    } else {
        by_priority_from(s, p + 1) + with_priority(s, p)
    }
}

/// The regions from the highest priority to the lowest, those of equal
/// priority in their order: a stable sort by decreasing priority.
pub open spec fn sorted_by_priority(s: Seq<StyledRegion>) -> Seq<StyledRegion> {
    by_priority_from(s, 0)
}

/// A line with each tab replaced by the tab glyph.
fn replace_tabs_in(line: &String) -> (r: String)
    ensures
        r@ == replace_tabs(line@),
{
    let chars = chars_of(line.as_str());
    let mut out = String::new();
    let mut i: usize = 0;
    while i < chars.len()
        invariant
            chars@ == line@,
            i <= chars.len(),
            out@ == replace_tabs(line@.take(i as int)),
        decreases chars.len() - i,
    {
        let c = chars[i];
        if c == '\t' {
            push_char(&mut out, '⬸');
        } else {
            push_char(&mut out, c);
        }
        i += 1;
        proof {
            assert(out@ =~= replace_tabs(line@.take(i as int)));
        }
    }
    proof {
        assert(line@.take(i as int) =~= line@);
    }
    out
}

impl UiPanel {
    /// Readies the panel to be drawn: tabs replaced by the tab glyph, and
    /// the styled regions sorted by decreasing priority (see
    /// `sorted_by_priority`).
    pub fn prepare_for_render(&mut self)
        ensures
            final(self).content@.len() == old(self).content@.len(),
            forall|i: int|
                0 <= i < old(self).content@.len() ==> #[trigger] final(self).content@[i]@ == replace_tabs(
                    old(self).content@[i]@,
                ),
            final(self).spans@ == sorted_by_priority(old(self).spans@),
            final(self).position == old(self).position,
            final(self).size == old(self).size,
    {
        self.fixup_weird_chars();
        self.sort_spans();
    }

    fn fixup_weird_chars(&mut self)
        ensures
            final(self).content@.len() == old(self).content@.len(),
            forall|i: int|
                0 <= i < old(self).content@.len() ==> #[trigger] final(self).content@[i]@ == replace_tabs(
                    old(self).content@[i]@,
                ),
            final(self).spans == old(self).spans,
            final(self).position == old(self).position,
            final(self).size == old(self).size,
    {
        let mut content: Vec<String> = Vec::new();
        let mut i: usize = 0;
        while i < self.content.len()
            invariant
                i <= self.content@.len(),
                content@.len() == i,
                self.content@ == old(self).content@,
                forall|j: int| 0 <= j < i ==> #[trigger] content@[j]@ == replace_tabs(old(self).content@[j]@),
            decreases self.content@.len() - i,
        {
            let line = replace_tabs_in(&self.content[i]);
            content.push(line);
            i += 1;
        }
        self.content = content;
    }

    fn sort_spans(&mut self)
        ensures
            final(self).spans@ == sorted_by_priority(old(self).spans@),
            final(self).content == old(self).content,
            final(self).position == old(self).position,
            final(self).size == old(self).size,
    {
        let ghost s = self.spans@;
        let mut sorted: Vec<StyledRegion> = Vec::new();
        let mut p: u32 = 256;
        while p > 0
            invariant
                p <= 256,
                self.spans@ == s,
                sorted@ == by_priority_from(s, p as int),
            decreases p,
        {
            p -= 1;
            let ghost before = sorted@;
            let mut j: usize = 0;
            proof {
                assert(s.take(0) =~= Seq::<StyledRegion>::empty());
                assert(before + with_priority(s.take(0), p as int) =~= before);
            }
            while j < self.spans.len()
                invariant
                    p < 256,
                    j <= self.spans@.len(),
                    self.spans@ == s,
                    sorted@ == before + with_priority(s.take(j as int), p as int),
                decreases self.spans@.len() - j,
            {
                let r = self.spans[j];
                if r.priority as u32 == p {
                    sorted.push(r);
                }
                j += 1;
                proof {
                    let t = s.take(j as int);
                    assert(t.drop_last() =~= s.take(j - 1));
                    assert(t.last() == r);
                    assert(sorted@ =~= before + with_priority(t, p as int));
                }
            }
            proof {
                assert(s.take(j as int) =~= s);
            }
        }
        self.spans = sorted;
    }
}

/// The style of a cell under the given regions: each color from the first
/// region that sets it, each of invert, underlined and bold set when any
/// region sets it.
pub open spec fn merged_style(regions: Seq<StyledRegion>) -> Style
    decreases regions.len(),
{
    if regions.len() == 0 {
        Style { foreground_color: None, background_color: None, invert: false, underlined: false, bold: false }
    } else {
        let rest = merged_style(regions.drop_last());
        let st = regions.last().style;
        Style {
            foreground_color: if rest.foreground_color.is_none() {
                st.foreground_color
            } else {
                rest.foreground_color
            },
            background_color: if rest.background_color.is_none() {
                st.background_color
            } else {
                rest.background_color
            },
            invert: rest.invert || st.invert,
            underlined: rest.underlined || st.underlined,
            bold: rest.bold || st.bold,
        }
    }
}

/// The rectangle between a region's corners, its size saturating at `i32::MAX`.
pub open spec fn region_rect(region: StyledRegion) -> Rect {
    let a = region.from;
    let b = region.to;
    Rect {
        x: min_spec(a.column as int, b.column as int) as i32,
        y: min_spec(a.row as int, b.row as int) as i32,
        width: sat_add_i32(max_spec(a.column as int, b.column as int) - min_spec(a.column as int, b.column as int), 1),
        height: sat_add_i32(max_spec(a.row as int, b.row as int) - min_spec(a.row as int, b.row as int), 1),
    }
}

/// Whether the rectangle between a region's corners holds `pos`.
pub open spec fn region_holds(region: StyledRegion, pos: Position) -> bool {
    let rect = region_rect(region);
    rect.x <= pos.column <= rect.right_spec() && rect.y <= pos.row <= rect.bottom_spec()
}

/// The regions that a list of indices names and that hold `pos`, in the
/// list's order; indices past the regions are skipped.
pub open spec fn regions_at(regions: Seq<StyledRegion>, indices: Seq<usize>, pos: Position) -> Seq<StyledRegion>
    decreases indices.len(),
{
    if indices.len() == 0 {
        Seq::empty()
    } else {
        let i = indices.last() as int;
        regions_at(regions, indices.drop_last(), pos) + (if i < regions.len() && region_holds(regions[i], pos) {
            seq![regions[i]]
        } else {
            Seq::empty()
        })
    }
}

impl PreparedUiPanel {
    /// The regions listed for row `row` that hold `pos`.
    pub open spec fn regions_for_pos_spec(self, pos: Position) -> Seq<StyledRegion> {
        let row = pos.row as int;
        if row < self.styled_regions_per_line@.len() {
            regions_at(self.styled_regions@, self.styled_regions_per_line@[row]@, pos)
        } else {
            Seq::empty()
        }
    }

    /// Whether the corners of every region are at most `i32::MAX` apart.
    pub open spec fn regions_fit(self) -> bool {
        forall|i: int|
            0 <= i < self.styled_regions@.len() ==> {
                let r = #[trigger] self.styled_regions@[i];
                &&& -i32::MAX <= r.to.row - r.from.row <= i32::MAX
                &&& -i32::MAX <= r.to.column - r.from.column <= i32::MAX
            }
    }

    /// The style of the cell at `pos`: the regions listed for its row that
    /// hold it, merged (see `merged_style`).
    pub fn style_for_pos(&self, pos: Position) -> (r: Style)
        requires
            pos.row >= 0,
            self.regions_fit(),
        ensures
            r == merged_style(self.regions_for_pos_spec(pos)),
    {
        let row = pos.row as usize;
        let mut style = Style {
            foreground_color: None,
            background_color: None,
            invert: false,
            underlined: false,
            bold: false,
        };
        if row >= self.styled_regions_per_line.len() {
            return style;
        }
        let indices = &self.styled_regions_per_line[row];
        let ghost idx = indices@;
        let mut k: usize = 0;
        proof {
            assert(idx.take(0) =~= Seq::<usize>::empty());
        }
        while k < indices.len()
            invariant
                k <= indices@.len(),
                idx == indices@,
                idx == self.styled_regions_per_line@[row as int]@,
                self.regions_fit(),
                style == merged_style(regions_at(self.styled_regions@, idx.take(k as int), pos)),
            decreases indices@.len() - k,
        {
            let i = indices[k];
            let ghost prev = regions_at(self.styled_regions@, idx.take(k as int), pos);
            proof {
                let t = idx.take(k + 1);
                assert(t.drop_last() =~= idx.take(k as int));
                assert(t.last() == i);
            }
            if i < self.styled_regions.len() {
                let sr = self.styled_regions[i];
                let rect = Rect::from_positions(sr.from, sr.to);
                if rect.contains_position(pos) {
                    if style.foreground_color.is_none() {
                        style.foreground_color = sr.style.foreground_color;
                    }
                    if style.background_color.is_none() {
                        style.background_color = sr.style.background_color;
                    }
                    if !style.invert {
                        style.invert = sr.style.invert;
                    }
                    if !style.bold {
                        style.bold = sr.style.bold;
                    }
                    if !style.underlined {
                        style.underlined = sr.style.underlined;
                    }
                    proof {
                        assert(rect == region_rect(sr));
                        assert(region_holds(sr, pos));
                        assert(regions_at(self.styled_regions@, idx.take(k + 1), pos) == prev.push(sr));
                        assert(prev.push(sr).drop_last() =~= prev);
                    }
                }
            }
            proof {
                let cur = regions_at(self.styled_regions@, idx.take(k + 1), pos);
                if !(i < self.styled_regions@.len() && region_holds(self.styled_regions@[i as int], pos)) {
                    assert(cur =~= prev);
                }
            }
            k += 1;
        }
        proof {
            assert(idx.take(k as int) =~= idx);
        }
        style
    }
}

} // verus!
