//! The panels of the editor: their geometry and the state they show.

pub mod combo;
pub mod completions;
pub mod editor;
pub mod file_picker;
pub mod file_tree;
pub mod hover_info;
pub mod line_numbers;
pub mod list_picker;
pub mod modeline;
pub mod prompt;
pub mod status_bar;
pub mod suggestions;
pub mod warpdrive;

use vstd::prelude::*;

use crate::slotmap::Handle;
use crate::position::sat_add_i32;
use crate::ui::layout::{Rect, Size};

verus! {

/// The panel that has the focus.
#[derive(Debug, Clone, Copy, PartialEq, Eq, Structural)]
pub enum FocusedPanel {
    Editor,
    Modeline(Handle),
    FilePicker(Handle),
    Warpdrive,
}

impl Default for FocusedPanel {
    fn default() -> (r: Self)
        ensures
            r == FocusedPanel::Editor,
    {
        FocusedPanel::Editor
    }
}

/// What laying out the panels depends on.
pub struct LayoutContext {
    pub full_viewport_size: Size,
}

/// Where and how large a panel wants to be.
pub struct LayoutInfo {
    pub place: LayoutPlace,
    pub width: Option<i32>,
    pub height: Option<i32>,
    pub padding: Option<Sides<i32>>,
}

impl Default for LayoutInfo {
    fn default() -> (r: Self)
        ensures
            r.place == LayoutPlace::Center,
            r.width.is_none(),
            r.height.is_none(),
            r.padding.is_none(),
    {
        LayoutInfo { place: LayoutPlace::Center, width: None, height: None, padding: None }
    }
}

/// Where a panel is placed.
#[derive(Debug, Clone, Copy, PartialEq, Eq, Structural, Hash)]
pub enum LayoutPlace {
    Center,
    South,
    FloatCenter,
    FloatBottom,
    FloatBottomRight,
    ManuallyManaged,
}

/// A value for each side of a rectangle.
#[derive(Debug, Clone, Copy)]
pub struct Sides<T> {
    pub top: T,
    pub bottom: T,
    pub left: T,
    pub right: T,
}

/// The index `k` steps from `sel` in the direction of `d`, wrapping around
/// `n` items.
pub open spec fn cyclic_index(sel: int, d: int, k: int, n: int) -> int {
    (if d > 0 {
        sel + k
    } else {
        sel - k
    }) % n
}

/// The first selectable item met going from `sel` in the direction of `d`,
/// from `k` steps on, stopping when back at `sel`.
pub open spec fn search_selectable(ok: Seq<bool>, sel: int, d: int, k: int) -> Option<int>
    decreases ok.len() + 1 - k,
{
    let n = ok.len() as int;
    if k < 1 || k > n {
        None
    } else {
        let j = cyclic_index(sel, d, k, n);
        if j == sel {
            None
        } else if ok[j] {
            Some(j)
        } else {
            search_selectable(ok, sel, d, k + 1)
        }
    }
}

/// The item selected after moving from `sel` in the direction of `d` to the
/// next selectable item, wrapping around; `sel` when there is none.
pub open spec fn selected_after(ok: Seq<bool>, sel: int, d: int) -> int {
    if ok.len() == 0 {
        sel
    } else {
        match search_selectable(ok, sel, d, 1) {
            Some(j) => j,
            None => sel,
        }
    }
}

proof fn lemma_mod_step(a: int, d: int, n: int)
    requires
        n > 0,
    ensures
        ((a % n) + d) % n == (a + d) % n,
{
    vstd::arithmetic::div_mod::lemma_add_mod_noop(a, d, n);
    vstd::arithmetic::div_mod::lemma_add_mod_noop(a % n, d, n);
    vstd::arithmetic::div_mod::lemma_mod_twice(a, n);
}

/// When the search finds nothing within `k` steps but an item is
/// selectable, it goes on past `k`.
proof fn lemma_search_found(ok: Seq<bool>, sel: int, d: int, k: int, j: int)
    requires
        ok.len() > 0,
        1 <= k <= ok.len(),
        0 <= j < ok.len(),
        ok[j],
        sel >= ok.len(),
        d == 1 || d == -1,
        forall|m: int| 1 <= m < k ==> !ok[#[trigger] cyclic_index(sel, d, m, ok.len() as int)],
    ensures
        search_selectable(ok, sel, d, k).is_some(),
    decreases ok.len() + 1 - k,
{
    let n = ok.len() as int;
    vstd::arithmetic::div_mod::lemma_mod_bound(sel, n);
    let c = cyclic_index(sel, d, k, n);
    vstd::arithmetic::div_mod::lemma_mod_bound(if d > 0 { sel + k } else { sel - k }, n);
    if !ok[c] {
        if k == n {
            // Every index was visited: the selectable one among them.
            lemma_cyclic_covers(sel, d, n, j);
            let m = choose|m: int| 1 <= m <= n && cyclic_index(sel, d, m, n) == j;
            if m < k {
                assert(!ok[cyclic_index(sel, d, m, n)]);
            }
        } else {
            lemma_search_found(ok, sel, d, k + 1, j);
        }
    }
}

/// Going `1..=n` steps from `sel` visits every index.
proof fn lemma_cyclic_covers(sel: int, d: int, n: int, j: int)
    requires
        n > 0,
        0 <= j < n,
        d == 1 || d == -1,
    ensures
        exists|m: int| 1 <= m <= n && cyclic_index(sel, d, m, n) == j,
{
    vstd::arithmetic::div_mod::lemma_mod_bound(sel, n);
    let s = sel % n;
    let m = if d > 0 {
        if j > s { j - s } else { j - s + n }
    } else {
        if s > j { s - j } else { s - j + n }
    };
    assert(1 <= m <= n);
    if d > 0 {
        lemma_mod_step(sel, m, n);
        vstd::arithmetic::div_mod::lemma_small_mod(j as nat, n as nat);
        if j > s {
            assert(s + m == j);
        } else {
            assert(s + m == j + n);
            vstd::arithmetic::div_mod::lemma_mod_add_multiples_vanish(j, n);
        }
    } else {
        lemma_mod_step(sel, -m, n);
        vstd::arithmetic::div_mod::lemma_small_mod(j as nat, n as nat);
        if s > j {
            assert(s - m == j);
        } else {
            assert(s - m == j - n);
            vstd::arithmetic::div_mod::lemma_mod_sub_multiples_vanish(j, n);
        }
    }
    assert(cyclic_index(sel, d, m, n) == j);
}

/// Moves the selection from `sel` to the next selectable item in the
/// direction of `direction` (see `selected_after`).
pub(crate) fn select_cyclic(ok: &Vec<bool>, sel: usize, direction: i32) -> (r: usize)
    requires
        direction == 1 || direction == -1,
        ok@.len() <= i32::MAX,
        sel <= i32::MAX,
        sel < ok@.len() || exists|j: int| 0 <= j < ok@.len() && ok@[j],
    ensures
        r == selected_after(ok@, sel as int, direction as int),
{
    let n = ok.len();
    if n == 0 {
        return sel;
    }
    let ghost ni = n as int;
    let ghost d = direction as int;
    let mut i: i64 = sel as i64 + direction as i64;
    let ghost mut k: int = 1;
    proof {
        vstd::arithmetic::div_mod::lemma_mod_bound(sel as int, ni);
    }
    loop
        invariant
            n == ok@.len(),
            ni == n,
            n > 0,
            n <= i32::MAX,
            sel <= i32::MAX,
            d == direction,
            d == 1 || d == -1,
            1 <= k,
            sel < n ==> k <= n,
            sel < n || exists|j: int| 0 <= j < ok@.len() && ok@[j],
            -1 <= i <= i32::MAX + 1,
            (i as int) % ni == cyclic_index(sel as int, d, k, ni),
            search_selectable(ok@, sel as int, d, 1) == search_selectable(ok@, sel as int, d, k),
            forall|m: int| 1 <= m < k ==> !ok@[#[trigger] cyclic_index(sel as int, d, m, ni)],
            sel >= n ==> k <= n,
        decreases ni + 1 - k,
    {
        let j: i64 = if i < 0 {
            n as i64 - 1
        } else {
            ((i as u64) % (n as u64)) as i64
        };
        proof {
            if i < 0 {
                assert(i == -1);
                vstd::arithmetic::div_mod::lemma_mod_add_multiples_vanish(-1, ni);
                vstd::arithmetic::div_mod::lemma_small_mod((ni - 1) as nat, ni as nat);
            }
            assert(j == cyclic_index(sel as int, d, k, ni));
            vstd::arithmetic::div_mod::lemma_mod_bound(if d > 0 { sel + k } else { sel - k }, ni);
        }
        if j == sel as i64 {
            proof {
                assert(search_selectable(ok@, sel as int, d, k) == None::<int>);
            }
            return sel;
        }
        if ok[j as usize] {
            proof {
                assert(search_selectable(ok@, sel as int, d, k) == Some(j as int));
            }
            return j as usize;
        }
        proof {
            if sel >= n && k == ni {
                let w = choose|w: int| 0 <= w < ok@.len() && ok@[w];
                lemma_search_found(ok@, sel as int, d, k, w);
                assert(false);
            }
            if sel < n && k == ni {
                vstd::arithmetic::div_mod::lemma_small_mod(sel as nat, ni as nat);
                if d > 0 {
                    vstd::arithmetic::div_mod::lemma_mod_add_multiples_vanish(sel as int, ni);
                } else {
                    vstd::arithmetic::div_mod::lemma_mod_sub_multiples_vanish(sel as int, ni);
                }
                assert(cyclic_index(sel as int, d, k, ni) == sel);
                assert(false);
            }
            lemma_mod_step(if d > 0 { sel + k } else { sel - k }, d, ni);
            assert(search_selectable(ok@, sel as int, d, k) == search_selectable(ok@, sel as int, d, k + 1));
            k = k + 1;
        }
        i = j + direction as i64;
        proof {
            lemma_mod_step(if d > 0 { sel + k - 1 } else { sel - k + 1 }, d, ni);
            vstd::arithmetic::div_mod::lemma_mod_twice(if d > 0 { sel + k - 1 } else { sel - k + 1 }, ni);
        }
    }
}

/// Whether `x` is a value of `i32`.
pub open spec fn fits_i32(x: int) -> bool {
    i32::MIN <= x <= i32::MAX
}

/// `d / 2` rounded toward zero, as `i32` division does.
pub open spec fn half_toward_zero(d: int) -> int {
    if d >= 0 {
        d / 2
    } else {
        -((-d) / 2)
    }
}

/// The width and height a panel takes in `vp`: what it asks for, else the
/// viewport's along the directions its place expands in, else 1.
pub open spec fn panel_size(vp: Rect, info: LayoutInfo) -> (int, int) {
    let (h_expand, v_expand) = match info.place {
        LayoutPlace::South | LayoutPlace::FloatBottom => (true, false),
        LayoutPlace::Center | LayoutPlace::FloatCenter => (true, true),
        _ => (false, false),
    };
    let width = match info.width {
        Some(w) => w as int,
        None => if h_expand {
            vp.width as int
        } else {
            1
        },
    };
    let height = match info.height {
        Some(h) => h as int,
        None => if v_expand {
            vp.height as int
        } else {
            1
        },
    };
    (width, height)
}

/// The left column and top row of a panel in `vp`, before padding: at the
/// bottom for `South` and `FloatBottom`, centered for `Center` and
/// `FloatCenter`, near the bottom right corner otherwise.
pub open spec fn panel_corner(vp: Rect, info: LayoutInfo) -> (int, int) {
    let (width, height) = panel_size(vp, info);
    match info.place {
        LayoutPlace::South | LayoutPlace::FloatBottom => (0, vp.bottom_spec() - height + 1),
        LayoutPlace::Center | LayoutPlace::FloatCenter => (
            vp.x + half_toward_zero(vp.width - width),
            vp.y + half_toward_zero(vp.height - height),
        ),
        _ => (vp.right_spec() - (vp.width - width) - 2, vp.bottom_spec() - (vp.height - height) - 1),
    }
}

/// Whether placing a panel in `vp` stays within `i32` at every step.
pub open spec fn panel_fits(vp: Rect, info: LayoutInfo) -> bool {
    let (width, height) = panel_size(vp, info);
    &&& match info.place {
        LayoutPlace::South | LayoutPlace::FloatBottom => fits_i32(vp.bottom_spec() - height)
            && fits_i32(vp.bottom_spec() - height + 1),
        LayoutPlace::Center | LayoutPlace::FloatCenter => fits_i32(vp.width - width) && fits_i32(
            vp.height - height,
        ) && fits_i32(vp.x + half_toward_zero(vp.width - width)) && fits_i32(
            vp.y + half_toward_zero(vp.height - height),
        ),
        _ => fits_i32(vp.width - width) && fits_i32(vp.height - height) && fits_i32(
            vp.right_spec() - (vp.width - width),
        ) && fits_i32(vp.right_spec() - (vp.width - width) - 2) && fits_i32(
            vp.bottom_spec() - (vp.height - height),
        ) && fits_i32(vp.bottom_spec() - (vp.height - height) - 1),
    }
    &&& match info.padding {
        Some(p) => p.top != i32::MIN && p.bottom != i32::MIN && p.left != i32::MIN && p.right
            != i32::MIN && fits_i32(-p.right - p.left) && fits_i32(-p.bottom - p.top),
        None => true,
    }
}

/// The rectangle of a panel placed in `vp`, shrunk by its padding.
pub open spec fn panel_rect_spec(vp: Rect, info: LayoutInfo) -> Rect {
    let (width, height) = panel_size(vp, info);
    let (left, top) = panel_corner(vp, info);
    match info.padding {
        Some(p) => Rect {
            x: sat_add_i32(left, p.left as int),
            y: sat_add_i32(top, p.top as int),
            width: sat_add_i32(width, -p.right - p.left),
            height: sat_add_i32(height, -p.bottom - p.top),
        },
        None => Rect { x: left as i32, y: top as i32, width: width as i32, height: height as i32 },
    }
}

/// The viewport left once the `South` panels among `infos` took their rows
/// from the bottom of `vp0`, in order.
pub open spec fn viewport_after_souths(vp0: Rect, infos: Seq<LayoutInfo>) -> Rect
    decreases infos.len(),
{
    if infos.len() == 0 {
        vp0
    } else {
        let vp = viewport_after_souths(vp0, infos.drop_last());
        if infos.last().place == LayoutPlace::South {
            let r = panel_rect_spec(vp, infos.last());
            Rect { height: sat_add_i32(vp.height as int, -r.height), ..vp }
        } else {
            vp
        }
    }
}

/// Whether laying out `infos` in `vp0` stays within `i32` at every step.
pub open spec fn layout_fits(vp0: Rect, infos: Seq<LayoutInfo>) -> bool {
    forall|i: int|
        0 <= i < infos.len() ==> match (#[trigger] infos[i]).place {
            LayoutPlace::South => {
                let vp = viewport_after_souths(vp0, infos.take(i));
                panel_fits(vp, infos[i]) && panel_rect_spec(vp, infos[i]).height != i32::MIN
            },
            LayoutPlace::ManuallyManaged => true,
            _ => panel_fits(viewport_after_souths(vp0, infos), infos[i]),
        }
}

/// The rectangle each panel gets: `South` panels take the bottom rows of
/// what is left of the viewport, in order; the others are placed in what
/// remains after all of them; `ManuallyManaged` panels get none.
pub open spec fn layout_spec(vp0: Rect, infos: Seq<LayoutInfo>) -> Seq<Option<Rect>> {
    Seq::new(
        infos.len(),
        |i: int|
            match infos[i].place {
                LayoutPlace::South => Some(panel_rect_spec(viewport_after_souths(vp0, infos.take(i)), infos[i])),
                LayoutPlace::ManuallyManaged => None,
                _ => Some(panel_rect_spec(viewport_after_souths(vp0, infos), infos[i])),
            },
    )
}

/// The rectangle of a panel placed in `viewport` (see `panel_rect_spec`).
fn panel_rect(viewport: Rect, info: &LayoutInfo) -> (r: Rect)
    requires
        panel_fits(viewport, *info),
    ensures
        r == panel_rect_spec(viewport, *info),
{
    let (h_expand, v_expand) = match info.place {
        LayoutPlace::South | LayoutPlace::FloatBottom => (true, false),
        LayoutPlace::Center | LayoutPlace::FloatCenter => (true, true),
        _ => (false, false),
    };
    let width = match info.width {
        Some(w) => w,
        None => if h_expand {
            viewport.width
        } else {
            1
        },
    };
    let height = match info.height {
        Some(h) => h,
        None => if v_expand {
            viewport.height
        } else {
            1
        },
    };
    let (left, top): (i32, i32) = match info.place {
        LayoutPlace::South | LayoutPlace::FloatBottom => (0, viewport.bottom() - height + 1),
        LayoutPlace::Center | LayoutPlace::FloatCenter => (
            viewport.left() + (viewport.width - width) / 2,
            viewport.top() + (viewport.height - height) / 2,
        ),
        _ => {
            let vpad: i32 = 1;
            let hpad: i32 = 2;
            (
                viewport.right() - (viewport.width - width) - hpad,
                viewport.bottom() - (viewport.height - height) - vpad,
            )
        },
    };
    let rect = Rect::new(left, top, width, height);
    match &info.padding {
        Some(pad) => rect.grown(-pad.top, -pad.bottom, -pad.left, -pad.right),
        None => rect,
    }
}

/// The rectangle of each panel, laid out in a viewport of `viewport_size`
/// from what each asks for in `infos` (see `layout_spec`).
pub fn compute_layout(viewport_size: Size, infos: &Vec<LayoutInfo>) -> (r: Vec<Option<Rect>>)
    requires
        layout_fits(Rect { x: 0, y: 0, width: viewport_size.column, height: viewport_size.row }, infos@),
    ensures
        r@ == layout_spec(Rect { x: 0, y: 0, width: viewport_size.column, height: viewport_size.row }, infos@),
{
    let ghost vp0 = Rect { x: 0, y: 0, width: viewport_size.column, height: viewport_size.row };
    let mut viewport = Rect::new(0, 0, viewport_size.column, viewport_size.row);
    let mut rects: Vec<Option<Rect>> = Vec::new();
    let mut i: usize = 0;
    while i < infos.len()
        invariant
            i <= infos@.len(),
            layout_fits(vp0, infos@),
            viewport == viewport_after_souths(vp0, infos@.take(i as int)),
            rects@.len() == i,
            forall|j: int|
                0 <= j < i ==> (#[trigger] rects@[j]) == if infos@[j].place == LayoutPlace::South {
                    layout_spec(vp0, infos@)[j]
                } else {
                    None
                },
        decreases infos@.len() - i,
    {
        proof {
            assert(infos@.take(i as int + 1).drop_last() =~= infos@.take(i as int));
            assert(infos@.take(i as int + 1).last() == infos@[i as int]);
        }
        match infos[i].place {
            LayoutPlace::South => {
                let r = panel_rect(viewport, &infos[i]);
                rects.push(Some(r));
                viewport = viewport.grown(0, -r.height, 0, 0);
            },
            _ => {
                rects.push(None);
            },
        }
        i += 1;
    }
    proof {
        assert(infos@.take(infos@.len() as int) =~= infos@);
    }
    let mut j: usize = 0;
    while j < infos.len()
        invariant
            j <= infos@.len(),
            rects@.len() == infos@.len(),
            layout_fits(vp0, infos@),
            viewport == viewport_after_souths(vp0, infos@),
            forall|q: int|
                0 <= q < infos@.len() ==> (#[trigger] rects@[q]) == if infos@[q].place == LayoutPlace::South || q
                    < j {
                    layout_spec(vp0, infos@)[q]
                } else {
                    None
                },
        decreases infos@.len() - j,
    {
        match infos[j].place {
            LayoutPlace::South | LayoutPlace::ManuallyManaged => {},
            _ => {
                let r = panel_rect(viewport, &infos[j]);
                rects.set(j, Some(r));
            },
        }
        j += 1;
    }
    proof {
        assert(rects@ =~= layout_spec(vp0, infos@));
    }
    rects
}

} // verus!
