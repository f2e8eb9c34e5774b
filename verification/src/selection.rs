use vstd::prelude::*;

use crate::position::{Offset, Position};
use crate::range::Range;

verus! {

/// A selection of buffer characters between an anchor and a cursor, both
/// included.
#[derive(Debug, Clone, Copy, PartialEq, Eq, Structural)]
pub struct Selection {
    pub cursor: Position,
    pub anchor: Position,
}

impl Selection {
    pub open spec fn start_spec(self) -> Position {
        if self.cursor.precedes_spec(self.anchor) {
            self.cursor
        } else {
            self.anchor
        }
    }

    pub open spec fn end_spec(self) -> Position {
        if self.cursor.precedes_spec(self.anchor) {
            self.anchor
        } else {
            self.cursor
        }
    }

    /// A selection of the single character at the origin.
    pub fn new() -> (r: Self)
        ensures
            r.cursor == Position::new_spec(0, 0),
            r.anchor == Position::new_spec(0, 0),
    {
        Self { cursor: Position::zero(), anchor: Position::zero() }
    }

    pub fn with_cursor(&self, cursor: Position) -> (r: Self)
        ensures
            r.cursor == cursor,
            r.anchor == self.anchor,
    {
        Self { cursor, anchor: self.anchor }
    }

    pub fn with_anchor(&self, anchor: Position) -> (r: Self)
        ensures
            r.cursor == self.cursor,
            r.anchor == anchor,
    {
        Self { cursor: self.cursor, anchor }
    }

    /// Whether the anchor comes before the cursor, or is the cursor.
    pub open spec fn is_forward_spec(self) -> bool {
        self.anchor.precedes_or_eq_spec(self.cursor)
    }

    /// Whether the anchor comes before the cursor, or is the cursor.
    pub fn is_forward(&self) -> (r: bool)
        ensures
            r == self.is_forward_spec(),
    {
        self.anchor.precedes_or_eq(&self.cursor)
    }

    /// The selection with anchor and cursor swapped.
    pub fn flipped(&self) -> (r: Self)
        ensures
            r.cursor == self.anchor,
            r.anchor == self.cursor,
    {
        Self { cursor: self.anchor, anchor: self.cursor }
    }

    /// The selection made forward: flipped when its cursor comes before its
    /// anchor.
    pub fn flipped_forward(&self) -> (r: Self)
        ensures
            r == if self.is_forward_spec() {
                *self
            } else {
                Selection { cursor: self.anchor, anchor: self.cursor }
            },
    {
        if self.is_forward() {
            *self
        } else {
            self.flipped()
        }
    }

    /// The selection of the cursor alone.
    pub fn shrunk_to_cursor(&self) -> (r: Self)
        ensures
            r.cursor == self.cursor,
            r.anchor == self.cursor,
    {
        Self { cursor: self.cursor, anchor: self.cursor }
    }

    /// The selection from `start` (the anchor) to `end` (the cursor).
    pub fn with_start_and_end(&self, start: Position, end: Position) -> (r: Self)
        ensures
            r.anchor == start,
            r.cursor == end,
    {
        Self { cursor: end, anchor: start }
    }

    /// The first of cursor and anchor.
    pub fn start(&self) -> (r: Position)
        ensures
            r == self.start_spec(),
    {
        if self.cursor.precedes(&self.anchor) {
            self.cursor
        } else {
            self.anchor
        }
    }

    /// The last of cursor and anchor.
    pub fn end(&self) -> (r: Position)
        ensures
            r == self.end_spec(),
    {
        if self.cursor.precedes(&self.anchor) {
            self.anchor
        } else {
            self.cursor
        }
    }

    /// The range of the selected characters: from the start to just after the end.
    pub open spec fn to_range_spec(self) -> Range {
        Range { start: self.start_spec(), end: self.end_spec().offset_spec(Offset { column: 1, row: 0 }) }
    }

    /// The range of the selected characters: from the start to just after the end.
    pub fn to_range(&self) -> (r: Range)
        ensures
            r == self.to_range_spec(),
    {
        let start = self.start();
        let end = self.end();
        Range { start, end: end.offset(Offset::new(1, 0)) }
    }

    /// The selection of the characters of a range, its last character being
    /// the one just before the end of the range.
    pub fn from_range(range: Range) -> (r: Self)
        ensures
            r.anchor == range.start,
            r.cursor == range.end.offset_spec(Offset { column: -1i32, row: 0i32 }),
    {
        Self { anchor: range.start, cursor: range.end.offset(Offset::new(-1, 0)) }
    }
}

/// The selections of a view: a primary selection and any number of others.
#[derive(Debug)]
pub struct Selections {
    pub primary_selection: Selection,
    pub extra_selections: Vec<Selection>,
}

impl Clone for Selections {
    fn clone(&self) -> (r: Self)
        ensures
            r.primary_selection == self.primary_selection,
            r.extra_selections@ == self.extra_selections@,
    {
        let mut extra = Vec::new();
        let mut i: usize = 0;
        while i < self.extra_selections.len()
            invariant
                i <= self.extra_selections.len(),
                extra@ == self.extra_selections@.take(i as int),
            decreases self.extra_selections.len() - i,
        {
            extra.push(self.extra_selections[i]);
            i += 1;
            proof {
                assert(extra@ =~= self.extra_selections@.take(i as int));
            }
        }
        proof {
            assert(self.extra_selections@.take(i as int) =~= self.extra_selections@);
        }
        Selections { primary_selection: self.primary_selection, extra_selections: extra }
    }
}

impl Selections {
    /// All selections, the primary one first.
    pub open spec fn all_spec(self) -> Seq<Selection> {
        seq![self.primary_selection] + self.extra_selections@
    }

    /// A single selection at the origin.
    pub fn new() -> (r: Self)
        ensures
            r.all_spec() == seq![Selection { cursor: Position::new_spec(0, 0), anchor: Position::new_spec(0, 0) }],
    {
        let r = Self { primary_selection: Selection::new(), extra_selections: Vec::new() };
        proof {
            assert(r.all_spec() =~= seq![Selection { cursor: Position::new_spec(0, 0), anchor: Position::new_spec(0, 0) }]);
        }
        r
    }

    pub fn primary(&self) -> (r: Selection)
        ensures
            r == self.primary_selection,
    {
        self.primary_selection
    }

    /// Drops all selections but the primary one.
    pub fn dismiss_extras(&mut self)
        ensures
            final(self).all_spec() == seq![old(self).primary_selection],
    {
        self.extra_selections = Vec::new();
        proof {
            assert(self.all_spec() =~= seq![old(self).primary_selection]);
        }
    }

    /// Number of selections.
    pub fn count(&self) -> (r: usize)
        ensures
            r == self.all_spec().len(),
    {
        self.all().len()
    }

    /// The selection at `index`, the primary one at 0.
    pub fn get(&self, index: usize) -> (r: Option<Selection>)
        ensures
            r == if index < self.all_spec().len() {
                Some(self.all_spec()[index as int])
            } else {
                None::<Selection>
            },
    {
        if index == 0 {
            Some(self.primary_selection)
        } else if index - 1 < self.extra_selections.len() {
            Some(self.extra_selections[index - 1])
        } else {
            None
        }
    }

    /// Replaces the selection at `index`, the primary one at 0; does nothing
    /// when there is none there.
    pub fn set(&mut self, index: usize, selection: Selection)
        ensures
            index < old(self).all_spec().len() ==> final(self).all_spec() == old(self).all_spec().update(
                index as int,
                selection,
            ),
            index >= old(self).all_spec().len() ==> *final(self) == *old(self),
    {
        if index == 0 {
            self.primary_selection = selection;
            proof {
                assert(self.all_spec() =~= old(self).all_spec().update(index as int, selection));
            }
        } else if index - 1 < self.extra_selections.len() {
            self.extra_selections.set(index - 1, selection);
            proof {
                assert(self.all_spec() =~= old(self).all_spec().update(index as int, selection));
            }
        }
    }

    /// All selections, the primary one first.
    pub fn all(&self) -> (r: Vec<Selection>)
        ensures
            r@ == self.all_spec(),
    {
        let mut r = Vec::new();
        r.push(self.primary_selection);
        let mut i: usize = 0;
        while i < self.extra_selections.len()
            invariant
                i <= self.extra_selections.len(),
                r@ == seq![self.primary_selection] + self.extra_selections@.take(i as int),
            decreases self.extra_selections.len() - i,
        {
            r.push(self.extra_selections[i]);
            i += 1;
            proof {
                assert(r@ =~= seq![self.primary_selection] + self.extra_selections@.take(i as int));
            }
        }
        proof {
            assert(self.extra_selections@.take(i as int) =~= self.extra_selections@);
        }
        r
    }
}


/// The selections of every view of a buffer, by view handle.
///
/// An association list with at most one entry per view: a buffer has few
/// views, and every edit updates the selections of all of them in place.
#[derive(Debug)]
pub struct AllSelections {
    pub entries: Vec<(u64, Selections)>,
}

impl AllSelections {
    /// No view appears twice.
    pub open spec fn wf(self) -> bool {
        forall|i: int, j: int|
            0 <= i < j < self.entries@.len() ==> self.entries@[i].0 != self.entries@[j].0
    }

    pub open spec fn has_view(self, view: u64) -> bool {
        exists|i: int| 0 <= i < self.entries@.len() && self.entries@[i].0 == view
    }

    pub open spec fn index_of_view(self, view: u64) -> int {
        choose|i: int| 0 <= i < self.entries@.len() && self.entries@[i].0 == view
    }

    /// The selections of each view, as sequences of selections.
    pub open spec fn view_spec(self) -> Map<u64, Seq<Selection>> {
        Map::new(
            |v: u64| self.has_view(v),
            |v: u64| self.entries@[self.index_of_view(v)].1.all_spec(),
        )
    }

    pub fn new() -> (r: Self)
        ensures
            r.wf(),
            r.view_spec() == Map::<u64, Seq<Selection>>::empty(),
    {
        let r = AllSelections { entries: Vec::new() };
        proof {
            assert(r.view_spec() =~= Map::<u64, Seq<Selection>>::empty());
        }
        r
    }

    /// Index of the entry of `view`.
    pub fn find(&self, view: u64) -> (r: Option<usize>)
        requires
            self.wf(),
        ensures
            match r {
                Some(i) => i < self.entries@.len() && self.entries@[i as int].0 == view,
                None => !self.has_view(view),
            },
            r.is_some() ==> r->Some_0 == self.index_of_view(view),
    {
        let mut i: usize = 0;
        while i < self.entries.len()
            invariant
                self.wf(),
                i <= self.entries@.len(),
                forall|j: int| 0 <= j < i ==> self.entries@[j].0 != view,
            decreases self.entries@.len() - i,
        {
            if self.entries[i].0 == view {
                proof {
                    assert(self.has_view(view));
                    let k = self.index_of_view(view);
                    assert(self.entries@[k].0 == view);
                    if k < i {
                        assert(self.entries@[k].0 != self.entries@[i as int].0);
                    }
                    if k > i {
                        assert(self.entries@[i as int].0 != self.entries@[k].0);
                    }
                }
                return Some(i);
            }
            i += 1;
        }
        None
    }

    /// The selections of `view`.
    pub fn get(&self, view: u64) -> (r: Option<&Selections>)
        requires
            self.wf(),
        ensures
            r.is_some() == self.view_spec().contains_key(view),
            r.is_some() ==> r->Some_0.all_spec() == self.view_spec()[view],
    {
        match self.find(view) {
            Some(i) => Some(&self.entries[i].1),
            None => None,
        }
    }

    /// The selections of `view`, to be changed in place.
    pub fn get_mut(&mut self, view: u64) -> (r: Option<&mut Selections>)
        requires
            old(self).wf(),
        ensures
            r.is_some() == old(self).has_view(view),
            r matches Some(s) ==> ({
                let i = old(self).index_of_view(view);
                &&& *s == old(self).entries@[i].1
                &&& final(self).entries@ == old(self).entries@.update(i, (view, *final(s)))
            }),
            r.is_none() ==> final(self).entries@ == old(self).entries@,
    {
        match self.find(view) {
            Some(i) => Some(&mut self.entries[i].1),
            None => None,
        }
    }

    /// Sets the selections of `view`, returning its previous ones.
    pub fn insert(&mut self, view: u64, selections: Selections) -> (r: Option<Selections>)
        requires
            old(self).wf(),
        ensures
            final(self).wf(),
            final(self).view_spec() == old(self).view_spec().insert(view, selections.all_spec()),
            r.is_some() == old(self).view_spec().contains_key(view),
            r.is_some() ==> r->Some_0.all_spec() == old(self).view_spec()[view],
    {
        match self.find(view) {
            Some(i) => {
                let (_, previous) = self.entries.remove(i);
                self.entries.insert(i, (view, selections));
                proof {
                    assert forall|v: u64| self.has_view(v) == old(self).has_view(v) || v == view by {
                        if old(self).has_view(v) {
                            let k = old(self).index_of_view(v);
                            assert(self.entries@[k].0 == v);
                        }
                        if self.has_view(v) {
                            let k = self.index_of_view(v);
                            assert(old(self).entries@[k].0 == v || k == i);
                        }
                    }
                    assert forall|v: u64| #[trigger] self.has_view(v) && v != view implies self.index_of_view(v)
                        == old(self).index_of_view(v) by {
                        let k = self.index_of_view(v);
                        let k2 = old(self).index_of_view(v);
                        assert(old(self).entries@[k].0 == v);
                        assert(old(self).has_view(v));
                        assert(old(self).entries@[k2].0 == v);
                        if k < k2 {
                            assert(old(self).entries@[k].0 != old(self).entries@[k2].0);
                        }
                        if k > k2 {
                            assert(old(self).entries@[k2].0 != old(self).entries@[k].0);
                        }
                    }
                    assert(self.entries@[i as int].0 == view);
                    assert(self.has_view(view));
                    let ki = self.index_of_view(view);
                    assert(self.entries@[ki].0 == view);
                    if ki < i {
                        assert(self.entries@[ki].0 != self.entries@[i as int].0);
                    }
                    if ki > i {
                        assert(self.entries@[i as int].0 != self.entries@[ki].0);
                    }
                    assert(self.view_spec() =~= old(self).view_spec().insert(view, selections.all_spec()));
                }
                Some(previous)
            },
            None => {
                self.entries.push((view, selections));
                proof {
                    let n = old(self).entries@.len();
                    assert(self.entries@[n as int].0 == view);
                    assert forall|v: u64| #[trigger] self.has_view(v) && v != view implies self.index_of_view(v)
                        == old(self).index_of_view(v) && old(self).has_view(v) by {
                        let k = self.index_of_view(v);
                        assert(k < n);
                        assert(old(self).entries@[k].0 == v);
                    }
                    assert forall|v: u64| old(self).has_view(v) implies self.has_view(v) by {
                        let k = old(self).index_of_view(v);
                        assert(self.entries@[k].0 == v);
                    }
                    assert(self.view_spec() =~= old(self).view_spec().insert(view, selections.all_spec()));
                }
                None
            },
        }
    }
}

impl Clone for AllSelections {
    fn clone(&self) -> (r: Self)
        ensures
            r.entries@.len() == self.entries@.len(),
            forall|i: int|
                0 <= i < self.entries@.len() ==> r.entries@[i].0 == self.entries@[i].0
                    && r.entries@[i].1.all_spec() == self.entries@[i].1.all_spec(),
            self.wf() ==> r.wf() && r.view_spec() == self.view_spec(),
    {
        let mut entries: Vec<(u64, Selections)> = Vec::new();
        let mut i: usize = 0;
        while i < self.entries.len()
            invariant
                i <= self.entries@.len(),
                entries@.len() == i,
                forall|j: int|
                    0 <= j < i ==> entries@[j].0 == self.entries@[j].0 && entries@[j].1.all_spec()
                        == self.entries@[j].1.all_spec(),
            decreases self.entries@.len() - i,
        {
            let v = self.entries[i].0;
            let s = self.entries[i].1.clone();
            proof {
                assert(s.all_spec() =~= self.entries@[i as int].1.all_spec());
            }
            entries.push((v, s));
            i += 1;
        }
        let r = AllSelections { entries };
        proof {
            if self.wf() {
                assert forall|v: u64| r.has_view(v) == self.has_view(v) by {
                    if r.has_view(v) {
                        let k = r.index_of_view(v);
                        assert(self.entries@[k].0 == v);
                    }
                    if self.has_view(v) {
                        let k = self.index_of_view(v);
                        assert(r.entries@[k].0 == v);
                    }
                }
                assert forall|v: u64| #[trigger] r.has_view(v) implies r.index_of_view(v) == self.index_of_view(v) by {
                    let k = r.index_of_view(v);
                    assert(self.entries@[k].0 == v);
                }
                assert(r.view_spec() =~= self.view_spec());
            }
        }
        r
    }
}

} // verus!
